//! What the loaded station offers: its channels, what is on them, and how they look.

use vstd::prelude::*;
use crate::deal::styles_fit;
use crate::library::{prog_name, shown_name, FileInfo};
use crate::networks::{ChanStyle, Network};
use crate::schedule::{is_ident, NowNext, Schedule};
use crate::text::{to_uppercase, uppercase};

verus! {

/// Everything that is fixed once the library is loaded. Channel 0 is the guide; it has no
/// schedule, nor has the weather page.
pub struct Station {
    pub files: Vec<FileInfo>,
    pub scheds: Vec<Schedule>,
    pub nets: Vec<Network>,
    pub styles: Vec<ChanStyle>,  // indexed by channel
    pub weather: Option<usize>,  // channel number of the WeatherStar page (empty schedule)
}

impl Station {
    pub open spec fn wf(self) -> bool {
        &&& 2 <= self.scheds@.len() <= isize::MAX
        &&& forall|c: int|
            0 <= c < self.scheds@.len() ==> (#[trigger] self.scheds@[c]).laid_out(self.files@)
        &&& self.scheds@[0].programs@.len() == 0
        &&& styles_fit(self.styles@, self.nets@.len() as int)
        &&& self.weather matches Some(c) ==> 1 <= c < self.scheds@.len()
            && self.scheds@[c as int].programs@.len() == 0
    }

    /// The number of channels, the guide among them.
    pub open spec fn count(self) -> int {
        self.scheds@.len() as int
    }

    /// Nothing plays on this channel: it is the guide, the weather page, or nothing was dealt to
    /// it.
    pub open spec fn dark(self, ch: int) -> bool {
        self.scheds@[ch].programs@.len() == 0
    }

    pub fn is_dark(&self, ch: usize) -> (r: bool)
        requires
            ch < self.count(),
        ensures
            r == self.dark(ch as int),
    {
        self.scheds[ch].programs.len() == 0
    }

    pub fn is_weather(&self, ch: usize) -> (r: bool)
        ensures
            r == (self.weather == Some(ch)),
    {
        match self.weather {
            Some(c) => c == ch,
            None => false,
        }
    }
}

/// What is on a channel: network, now, next, the time left, and `done` of `of` microseconds.
pub struct ChanInfo {
    pub net: String,
    pub now: String,
    pub next: String,
    pub left: u128,
    pub done: u64,
    pub of: u64,
}

impl Station {
    /// The name of a channel's network, upper case; empty for one without a style.
    pub open spec fn network_name(self, ch: int) -> Seq<char> {
        if ch < self.styles@.len() {
            uppercase(self.nets@[self.styles@[ch].net as int].name@)
        } else {
            Seq::empty()
        }
    }

    /// `r` tells what is on channel `ch` at `now`.
    pub open spec fn tells(self, ch: int, now: int, r: ChanInfo) -> bool {
        if self.weather == Some(ch as usize) {
            &&& r.net@ == "WEATHER"@
            &&& r.now@ == "LOCAL FORECAST"@
            &&& r.next@ == "WEATHERSTAR 3000"@
            &&& r.left == 0 && r.done == 0
        } else if self.dark(ch) {
            &&& r.net@ == self.network_name(ch)
            &&& r.now@ == Seq::<char>::empty() && r.next@ == Seq::<char>::empty()
            &&& r.left == 0 && r.done == 0
        } else {
            &&& r.net@ == self.network_name(ch)
            &&& exists|x: NowNext| #[trigger]
                self.scheds@[ch].is_now_next(self.files@, ch, now, x) && {
                    &&& r.now@ == self.program_name(ch, x.now as int)
                    &&& r.next@ == self.program_name(ch, x.next as int)
                    &&& r.left == x.left && r.done == x.done && r.of == x.of
                }
        }
    }

    /// What entry `i` of a channel is called on screen.
    pub open spec fn program_name(self, ch: int, i: int) -> Seq<char> {
        shown_name(
            self.files@[self.scheds@[ch].programs@[i].file as int],
            usize::MAX as nat,
        )
    }

    /// (network, now, next, time left, progress) for a channel, idents skipped.
    pub fn chan_info(&self, ch: usize, now: u64) -> (r: ChanInfo)
        requires
            self.wf(),
            ch < self.count(),
        ensures
            self.tells(ch as int, now as int, r),
            0 < r.of,
            r.done <= r.of,
    {
        if self.is_weather(ch) {
            return ChanInfo {
                net: "WEATHER".to_owned(),
                now: "LOCAL FORECAST".to_owned(),
                next: "WEATHERSTAR 3000".to_owned(),
                left: 0,
                done: 0,
                of: 1,
            };
        }
        let net = if ch < self.styles.len() {
            to_uppercase(self.nets[self.styles[ch].net].name.as_str())
        } else {
            String::new()
        };
        assert(ch >= self.styles@.len() ==> net@ =~= Seq::empty());
        let s = &self.scheds[ch];
        if s.programs.len() == 0 {
            let r = ChanInfo { net, now: String::new(), next: String::new(), left: 0, done: 0, of: 1 };
            assert(r.now@ =~= Seq::empty());
            assert(r.next@ =~= Seq::empty());
            return r;
        }
        let x = s.now_next(&self.files, ch, now);
        let a = prog_name(&self.files[s.programs[x.now].file], usize::MAX);
        let b = prog_name(&self.files[s.programs[x.next].file], usize::MAX);
        assert(self.scheds@[ch as int].is_now_next(self.files@, ch as int, now as int, x));
        ChanInfo { net, now: a, next: b, left: x.left, done: x.done, of: x.of }
    }
}

// ---------------------------------------------------------------- corner clocks

/// The hours in which a station runs its corner clock: the morning and the evening news.
pub open spec fn news_hour(hour: int) -> bool {
    5 <= hour < 10 || 17 <= hour < 20
}

/// One program in four carries the clock all through.
pub open spec fn carries_clock(file: int) -> bool {
    (file * 0x9E37_79B9_7F4A_7C15) % 0x1_0000_0000_0000_0000 / 0x4000_0000_0000_0000 == 0
}

impl Station {
    /// Whether the corner clock shows on a channel that has one.
    pub open spec fn clock_shows(self, ch: int, hour: int, now: int) -> bool {
        news_hour(hour) || (ch < self.count() && !self.dark(ch) && carries_clock(
            self.scheds@[ch].programs@[self.scheds@[ch].position(ch, now).0].file as int,
        ))
    }

    /// Corner clock only during the hours a real station runs one (morning and evening news
    /// blocks), plus the occasional program that carries it all through.
    pub fn clock_now(&self, ch: usize, hour: u32, now: u64) -> (r: bool)
        requires
            self.wf(),
        ensures
            r == self.clock_shows(ch as int, hour as int, now as int),
    {
        if (5 <= hour && hour < 10) || (17 <= hour && hour < 20) {
            return true;
        }
        if ch >= self.scheds.len() || self.scheds[ch].programs.len() == 0 {
            return false;
        }
        proof {
            crate::schedule::laid_out_is_in_order(self.scheds@[ch as int], self.files@);
        }
        let s = &self.scheds[ch];
        let (i, off) = s.at(ch, now);
        let x = (s.programs[i].file as u64).wrapping_mul(0x9E37_79B9_7F4A_7C15);
        x / 0x4000_0000_0000_0000 == 0
    }
}

// ---------------------------------------------------------------- what the listing says

/// While a program plays, the listing of its channel names it as what is on now, with the time it
/// still lasts and the time it has played.
pub proof fn the_listing_names_what_plays(st: Station, ch: int, now: int, r: ChanInfo)
    requires
        st.wf(),
        0 <= ch < st.count(),
        0 <= now,
        st.tells(ch, now, r),
        st.weather != Some(ch as usize),
        st.scheds@[ch].programs@.len() > 0,
        st.scheds@[ch].total > 0,
        ({
            let s = st.scheds@[ch];
            !st.files@[s.programs@[s.position(ch, now).0].file as int].bumper
        }),
    ensures
        ({
            let s = st.scheds@[ch];
            let (i, off) = s.position(ch, now);
            let f = st.files@[s.programs@[i].file as int];
            &&& r.now@ == shown_name(f, usize::MAX as nat)
            &&& r.left == f.duration - off
            &&& r.done == off
            &&& f.duration >= 1000 ==> r.of == f.duration
        }),
{
    let s = st.scheds@[ch];
    let x = choose|x: NowNext| #[trigger]
        s.is_now_next(st.files@, ch, now, x) && {
            &&& r.now@ == st.program_name(ch, x.now as int)
            &&& r.next@ == st.program_name(ch, x.next as int)
            &&& r.left == x.left && r.done == x.done && r.of == x.of
        };
    assert(s.laid_out(st.files@));
    crate::schedule::now_ends_where_its_file_does(s, st.files@, ch, now, x);
}

/// The listing of a channel names, as next, the first program behind the one that it names as now;
/// and while an ident plays, as now the first program behind that. All that lies between them is
/// idents.
pub proof fn the_listing_skips_idents(st: Station, ch: int, now: int, r: ChanInfo) -> (n: (int, int))
    requires
        st.wf(),
        0 <= ch < st.count(),
        0 <= now,
        st.tells(ch, now, r),
        st.weather != Some(ch as usize),
        st.scheds@[ch].programs@.len() > 0,
    ensures
        ({
            let s = st.scheds@[ch];
            let m = s.programs@.len() as int;
            let i = s.position(ch, now).0;
            let file = |j: int| st.files@[s.programs@[j % m].file as int];
            &&& 0 <= n.0 && 1 <= n.1
            &&& r.now@ == shown_name(file(i + n.0), usize::MAX as nat)
            &&& r.next@ == shown_name(file(i + n.0 + n.1), usize::MAX as nat)
            &&& forall|k: int| 0 <= k < n.0 ==> #[trigger] file(i + k).bumper
            &&& forall|k: int| 1 <= k < n.1 ==> #[trigger] file(i + n.0 + k).bumper
        }),
{
    let s = st.scheds@[ch];
    let m = s.programs@.len() as int;
    let files = st.files@;
    let x = choose|x: NowNext| #[trigger]
        s.is_now_next(files, ch, now, x) && {
            &&& r.now@ == st.program_name(ch, x.now as int)
            &&& r.next@ == st.program_name(ch, x.next as int)
            &&& r.left == x.left && r.done == x.done && r.of == x.of
        };
    assert(s.laid_out(files));
    let i = s.position(ch, now).0;
    let file = |j: int| files[s.programs@[j % m].file as int];
    let a = crate::schedule::now_is_the_first_program_from_here(s, files, ch, now, x);
    let b = crate::schedule::next_is_the_first_program_behind_now(s, files, ch, now, x);
    assert forall|k: int| 0 <= k < a implies #[trigger] file(i + k).bumper by {
        assert(is_ident(files, s.programs@, (i + k) % m));
    }
    assert forall|k: int| #[trigger] ((x.now + k) % m) == (i + a + k) % m by {
        vstd::arithmetic::div_mod::lemma_add_mod_noop(i + a, k, m);
        vstd::arithmetic::div_mod::lemma_add_mod_noop((i + a) % m, k, m);
        vstd::arithmetic::div_mod::lemma_mod_twice(i + a, m);
    }
    assert((x.now + b) % m == (i + a + b) % m);
    assert forall|k: int| 1 <= k < b implies #[trigger] file(i + a + k).bumper by {
        assert((x.now + k) % m == (i + a + k) % m);
        assert(is_ident(files, s.programs@, (x.now + k) % m));
    }
    (a, b)
}

/// The listing of a channel names its network; that of the weather page says what it is, and on a
/// channel without programs nothing is on or left.
pub proof fn the_listing_names_the_network(st: Station, ch: int, now: int, r: ChanInfo)
    requires
        st.wf(),
        0 <= ch < st.count(),
        st.tells(ch, now, r),
    ensures
        st.weather == Some(ch as usize) ==> r.net@ == "WEATHER"@ && r.now@ == "LOCAL FORECAST"@
            && r.left == 0,
        st.weather != Some(ch as usize) && ch < st.styles@.len() ==> r.net@ == uppercase(
            st.nets@[st.styles@[ch].net as int].name@,
        ),
        st.weather != Some(ch as usize) && st.scheds@[ch].programs@.len() == 0 ==> r.now@.len() == 0
            && r.next@.len() == 0 && r.left == 0 && r.done == 0,
{
}

/// In the hours of the news, from five to ten and from seventeen to twenty, the corner clock shows;
/// in the others as long as a program that carries it plays, and never where nothing is on.
pub proof fn the_clock_goes_with_the_program(st: Station, ch: int, hour: int, now: int, later: int)
    requires
        0 <= hour < 24,
    ensures
        5 <= hour <= 9 || 17 <= hour <= 19 ==> st.clock_shows(ch, hour, now),
        !(5 <= hour <= 9 || 17 <= hour <= 19) && (ch >= st.count()
            || st.scheds@[ch].programs@.len() == 0) ==> !st.clock_shows(ch, hour, now),
        ch < st.count() && st.scheds@[ch].position(ch, now).0 == st.scheds@[ch].position(
            ch,
            later,
        ).0 ==> st.clock_shows(ch, hour, now) == st.clock_shows(ch, hour, later),
{
}

/// Which programs carry the clock: a program's number times the golden ratio of 64 bits goes round
/// that circle some times, and the clock is carried in its first quarter.
pub proof fn a_quarter_of_the_circle_carries_the_clock(file: int, k: int)
    requires
        0 <= file,
        k * 0x1_0000_0000_0000_0000 <= file * 0x9E37_79B9_7F4A_7C15 < (k + 1)
            * 0x1_0000_0000_0000_0000,
    ensures
        carries_clock(file) <==> file * 0x9E37_79B9_7F4A_7C15 < k * 0x1_0000_0000_0000_0000
            + 0x4000_0000_0000_0000,
{
    let x = file * 0x9E37_79B9_7F4A_7C15;
    vstd::arithmetic::div_mod::lemma_fundamental_div_mod_converse(
        x,
        0x1_0000_0000_0000_0000,
        k,
        x - k * 0x1_0000_0000_0000_0000,
    );
}

} // verus!
