//! What the programs ask of the desktop they run on: one instance, sibling programs, the parent
//! console, the crash report, and the embedded page.

use vstd::prelude::*;
use crate::text::{chars_of, contains, has_text, lowercase, string_range, texts, to_lowercase};

verus! {

// ---------------------------------------------------------------- one instance

/// What came of claiming the name of a running program.
#[derive(Clone, Copy, PartialEq, Eq, Structural, Debug)]
pub enum Claim {
    /// The system has no such names, or refused to make one.
    Unavailable,
    /// The name is new: nobody else holds it.
    Fresh,
    /// Another process holds the name.
    Taken,
}

/// One tuner at a time: a second double-click while it's running just exits. Where the name could
/// not be claimed at all the program runs.
pub fn single_instance(claim: Claim) -> (r: bool)
    ensures
        r == (claim != Claim::Taken),
{
    match claim {
        Claim::Taken => false,
        _ => true,
    }
}

// ---------------------------------------------------------------- sibling programs

/// A program to start from the folder of this one.
pub struct Launch {
    pub file_name: String,
    pub args: Vec<String>,
}

/// `s` without any ".exe" at its end.
pub open spec fn without_exe(s: Seq<char>) -> Seq<char>
    decreases s.len(),
{
    if s.len() >= 4 && s.skip(s.len() - 4) == ".exe"@ {
        without_exe(s.take(s.len() - 4))
    } else {
        s
    }
}

fn strip_exe(s: &str) -> (r: String)
    ensures
        r@ == without_exe(s@),
{
    let v = chars_of(s);
    let mut n: usize = v.len();
    proof {
        reveal_strlit(".exe");
        assert(v@.take(n as int) =~= v@);
    }
    while n >= 4 && v[n - 4] == '.' && v[n - 3] == 'e' && v[n - 2] == 'x' && v[n - 1] == 'e'
        invariant
            n <= v@.len(),
            without_exe(s@) == without_exe(v@.take(n as int)),
            ".exe"@ =~= seq!['.', 'e', 'x', 'e'],
        decreases n,
    {
        proof {
            let t = v@.take(n as int);
            assert(t.skip(n - 4) =~= ".exe"@);
            assert(t.take(n - 4) =~= v@.take(n - 4));
        }
        n -= 4;
    }
    proof {
        let t = v@.take(n as int);
        if n >= 4 && t.skip(n - 4) == ".exe"@ {
            assert(t.skip(n - 4)[0] == v@[n - 4]);
            assert(t.skip(n - 4)[1] == v@[n - 3]);
            assert(t.skip(n - 4)[2] == v@[n - 2]);
            assert(t.skip(n - 4)[3] == v@[n - 1]);
        }
        assert(v@.subrange(0, n as int) =~= t);
    }
    string_range(&v, 0, n)
}

/// What a sibling program's file is called: only Windows has the ".exe".
pub open spec fn sibling_file(exe_name: Seq<char>, windows: bool) -> Seq<char> {
    if windows {
        exe_name
    } else {
        without_exe(exe_name)
    }
}

/// What is started for a sibling program: the name of its file, and its arguments.
pub open spec fn sibling(exe_name: Seq<char>, args: Seq<Seq<char>>, windows: bool) -> (
    Seq<char>,
    Seq<Seq<char>>,
) {
    (sibling_file(exe_name, windows), args)
}

impl Launch {
    /// The name of the file, and the arguments.
    pub open spec fn parts(self) -> (Seq<char>, Seq<Seq<char>>) {
        (self.file_name@, texts(self.args@))
    }
}

/// The sibling program (tuner-setup.exe / tuner.exe) from the same folder: as with arguments, of
/// which there are none.
pub fn launch_sibling(exe_name: &str, windows: bool) -> (r: Launch)
    ensures
        r.parts() == sibling(exe_name@, Seq::empty(), windows),
{
    let r = launch_sibling_with(exe_name, Vec::new(), windows);
    assert(texts(r.args@) =~= Seq::empty());
    r
}

/// The sibling program from the same folder, with arguments.
pub fn launch_sibling_with(exe_name: &str, args: Vec<String>, windows: bool) -> (r: Launch)
    ensures
        r.parts() == sibling(exe_name@, texts(args@), windows),
{
    let file_name = if windows { exe_name.to_owned() } else { strip_exe(exe_name) };
    Launch { file_name, args }
}

/// Which program a launcher starts: the one that the launcher's own name asks for.
pub fn launcher_target(own_stem: &str, windows: bool) -> (r: &'static str)
    ensures
        r@ == (match (has_text(lowercase(own_stem@), "setup"@), windows) {
            (true, true) => "tuner-setup.exe"@,
            (true, false) => "tuner-setup"@,
            (false, true) => "tuner.exe"@,
            (false, false) => "tuner"@,
        }),
{
    let low = to_lowercase(own_stem);
    match (contains(low.as_str(), "setup"), windows) {
        (true, true) => "tuner-setup.exe",
        (true, false) => "tuner-setup",
        (false, true) => "tuner.exe",
        (false, false) => "tuner",
    }
}

// ---------------------------------------------------------------- console and crash report

/// The standard output handle of the process, as the system reports it.
#[derive(Clone, Copy, PartialEq, Eq, Structural, Debug)]
pub struct StdHandle {
    pub invalid: bool,
    pub null: bool,
}

/// Whether to attach to the parent's console: only when standard output leads nowhere yet, so
/// that a redirection to a pipe or file is kept.
pub fn use_parent_console(stdout: Option<StdHandle>) -> (r: bool)
    ensures
        r == !(stdout matches Some(h) && !h.invalid && !h.null),
{
    match stdout {
        Some(h) => h.invalid || h.null,
        None => true,
    }
}

/// The report of a panic: who stopped, why, and where.
pub open spec fn crash_report(app: Seq<char>, msg: Seq<char>, place: Seq<char>) -> Seq<char> {
    app + " stopped: "@ + msg + "\n\n("@ + place + ")"@
}

/// The text that is logged and shown when a program panics.
pub fn crash_text(app: &str, msg: &str, place: &str) -> (r: String)
    ensures
        r@ == crash_report(app@, msg@, place@),
{
    let mut s = app.to_owned();
    s.append(" stopped: ");
    s.append(msg);
    s.append("\n\n(");
    s.append(place);
    s.append(")");
    s
}

/// What a panic carried: its message if it was text of one of the two usual kinds.
pub fn panic_message(borrowed: Option<&str>, owned: Option<&str>) -> (r: String)
    ensures
        r@ == (match (borrowed, owned) {
            (Some(s), _) => s@,
            (None, Some(s)) => s@,
            (None, None) => "unknown error"@,
        }),
{
    match borrowed {
        Some(s) => s.to_owned(),
        None => match owned {
            Some(s) => s.to_owned(),
            None => "unknown error".to_owned(),
        },
    }
}

// ---------------------------------------------------------------- the embedded page

/// What the page's control was last told: its size and whether it shows.
#[derive(Clone, Copy, PartialEq, Eq, Debug)]
pub struct Web {
    pub shown: bool,
    pub bounds: (u32, u32),
}

/// What the page's control has to be told now.
#[derive(Clone, Copy, PartialEq, Eq, Debug)]
pub struct WebOrders {
    pub set_bounds: Option<(u32, u32)>,
    pub set_visible: Option<bool>,
}

impl Web {
    /// A control that was just created: hidden and without a size.
    pub fn new() -> (r: Web)
        ensures
            !r.shown,
            r.bounds == (0u32, 0u32),
    {
        Web { shown: false, bounds: (0, 0) }
    }

    /// Show the page filling `size` (client pixels), or hide it. The control is only told what
    /// changes.
    pub fn set(&mut self, size: Option<(u32, u32)>) -> (r: WebOrders)
        ensures
            final(self).shown == size is Some,
            final(self).bounds == (match size {
                Some(s) => s,
                None => old(self).bounds,
            }),
            r.set_bounds == (if size is Some && size->0 != old(self).bounds {
                size
            } else {
                None
            }),
            r.set_visible == (if size is Some != old(self).shown {
                Some(size is Some)
            } else {
                None
            }),
    {
        match size {
            Some(s) => {
                let set_bounds = if self.bounds.0 != s.0 || self.bounds.1 != s.1 {
                    Some(s)
                } else {
                    None
                };
                let set_visible = if !self.shown { Some(true) } else { None };
                self.bounds = s;
                self.shown = true;
                WebOrders { set_bounds, set_visible }
            },
            None => {
                let set_visible = if self.shown { Some(false) } else { None };
                self.shown = false;
                WebOrders { set_bounds: None, set_visible }
            },
        }
    }
}

/// Elsewhere than on Windows a sibling's file is its name without ".exe": it does not end so, a name
/// with it and one without it are of the same file, and a name without it is that of the file. On
/// Windows the file is called what is asked for. Its arguments are those that it is given.
pub proof fn siblings_go_by_their_names(name: Seq<char>, args: Seq<Seq<char>>)
    ensures
        sibling(name, args, true) == (name, args),
        sibling(name, args, false).1 == args,
        sibling(name + ".exe"@, args, false).0 == sibling(name, args, false).0,
        ({
            let f = sibling(name, args, false).0;
            &&& f.len() <= name.len() && f == name.take(f.len() as int)
            &&& f.len() >= 4 ==> f.skip(f.len() - 4) != ".exe"@
        }),
        name.len() < 4 || name.skip(name.len() - 4) != ".exe"@ ==> sibling(name, args, false).0
            == name,
{
    reveal_strlit(".exe");
    let long = name + ".exe"@;
    assert(long.skip(long.len() - 4) =~= ".exe"@);
    assert(long.take(long.len() - 4) =~= name);
    lemma_without_exe(name);
}

proof fn lemma_without_exe(s: Seq<char>)
    ensures
        ({
            let f = without_exe(s);
            &&& f.len() <= s.len() && f == s.take(f.len() as int)
            &&& f.len() >= 4 ==> f.skip(f.len() - 4) != ".exe"@
        }),
    decreases s.len(),
{
    if s.len() >= 4 && s.skip(s.len() - 4) == ".exe"@ {
        let t = s.take(s.len() - 4);
        lemma_without_exe(t);
        let f = without_exe(s);
        assert(t.take(f.len() as int) =~= s.take(f.len() as int));
    } else {
        assert(s.take(s.len() as int) =~= s);
    }
}

/// The report says first which program stopped, then why, and last, in brackets, where.
pub proof fn the_report_says_who_why_and_where(app: Seq<char>, msg: Seq<char>, place: Seq<char>)
    ensures
        ({
            let r = crash_report(app, msg, place);
            let at = app.len() as int + 10;
            &&& r.take(app.len() as int) == app
            &&& at + msg.len() + place.len() < r.len() && r.subrange(at, at + msg.len()) == msg
            &&& r.subrange(r.len() - 1 - place.len(), r.len() - 1) == place
        }),
{
    reveal_strlit(" stopped: ");
    reveal_strlit("\n\n(");
    reveal_strlit(")");
    let r = crash_report(app, msg, place);
    let at = app.len() as int + 10;
    assert(r.take(app.len() as int) =~= app);
    assert(r.subrange(at, at + msg.len()) =~= msg);
    assert(r.subrange(r.len() - 1 - place.len(), r.len() - 1) =~= place);
}

} // verus!
