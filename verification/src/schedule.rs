//! Channel schedules. A library of files is dealt across the channels, each a looping playlist;
//! a channel's position is a pure function of wall-clock time, so it resumes across restarts.
//!
//! Times are whole microseconds.

use vstd::prelude::*;
use crate::library::FileInfo;

verus! {

/// One entry of a channel's playlist.
pub struct Program {
    pub file: usize,
    pub start: u128,  // offset within the channel loop
}

/// A channel's playlist, played in a loop that is `total` long.
pub struct Schedule {
    pub programs: Vec<Program>,
    pub total: u128,
}

/// How long a list of files plays.
pub open spec fn run_time(files: Seq<FileInfo>, list: Seq<usize>) -> nat
    decreases list.len(),
{
    if list.len() == 0 {
        0
    } else {
        run_time(files, list.drop_last()) + files[list.last() as int].duration as nat
    }
}

/// The last entry that has started by `t`; the first where none has.
pub open spec fn last_started(programs: Seq<Program>, t: int) -> int
    decreases programs.len(),
{
    if programs.len() <= 1 {
        0
    } else if programs.last().start <= t {
        programs.len() - 1
    } else {
        last_started(programs.drop_last(), t)
    }
}

impl Schedule {
    /// The files of the playlist.
    pub open spec fn playlist(self) -> Seq<usize> {
        self.programs@.map_values(|p: Program| p.file)
    }

    /// The entries start at 0 and one after the other, all within the loop.
    pub open spec fn in_order(self) -> bool {
        &&& self.programs@.len() > 0 ==> self.programs@[0].start == 0
        &&& forall|i: int, j: int|
            0 <= i <= j < self.programs@.len() ==> (#[trigger] self.programs@[i]).start <= (
            #[trigger] self.programs@[j]).start
        &&& forall|i: int| 0 <= i < self.programs@.len() ==> (#[trigger] self.programs@[i]).start <= self.total
    }

    /// Every entry is a file of the library.
    pub open spec fn names_files(self, files: Seq<FileInfo>) -> bool {
        forall|i: int| 0 <= i < self.programs@.len() ==> (#[trigger] self.programs@[i]).file < files.len()
    }

    /// Each entry starts when those before it have played, and the loop is as long as all of them.
    pub open spec fn laid_out(self, files: Seq<FileInfo>) -> bool {
        &&& self.names_files(files)
        &&& forall|i: int|
            0 <= i < self.programs@.len() ==> (#[trigger] self.programs@[i]).start == run_time(
                files,
                self.playlist().take(i),
            )
        &&& self.total == run_time(files, self.playlist())
    }

    /// Where in its loop channel `ch` is at `now`: every channel number sits 997 seconds on.
    pub open spec fn loop_time(self, ch: int, now: int) -> int {
        (now + ch * 997_000_000) % (self.total as int)
    }

    /// The entry that plays on channel `ch` at `now`, and how far into it.
    pub open spec fn position(self, ch: int, now: int) -> (int, int) {
        if self.programs@.len() == 0 || self.total == 0 {
            (0, 0)
        } else {
            let t = self.loop_time(ch, now);
            let i = last_started(self.programs@, t);
            (i, t - self.programs@[i].start)
        }
    }
}

/// What `last_started` finds in a list that is in order.
proof fn lemma_last_started(programs: Seq<Program>, t: int)
    requires
        programs.len() > 0,
        programs[0].start <= t,
    ensures
        0 <= last_started(programs, t) < programs.len(),
        programs[last_started(programs, t)].start <= t,
        last_started(programs, t) + 1 < programs.len() ==> t < programs[last_started(programs, t) + 1].start,
    decreases programs.len(),
{
    if programs.len() > 1 && programs.last().start > t {
        lemma_last_started(programs.drop_last(), t);
    }
}

/// An entry that has started, with none started behind it, is the last one.
proof fn lemma_is_last_started(programs: Seq<Program>, t: int, i: int)
    requires
        0 <= i < programs.len(),
        programs[i].start <= t,
        forall|j: int| i < j < programs.len() ==> t < (#[trigger] programs[j]).start,
    ensures
        last_started(programs, t) == i,
    decreases programs.len(),
{
    if programs.len() > 1 && programs.last().start > t {
        lemma_is_last_started(programs.drop_last(), t, i);
    }
}

proof fn lemma_run_time_step(files: Seq<FileInfo>, list: Seq<usize>, i: int)
    requires
        0 <= i < list.len(),
    ensures
        run_time(files, list.take(i + 1)) == run_time(files, list.take(i))
            + files[list[i] as int].duration,
{
    assert(list.take(i + 1).drop_last() =~= list.take(i));
}

proof fn lemma_run_time_grows(files: Seq<FileInfo>, list: Seq<usize>, i: int, j: int)
    requires
        0 <= i <= j <= list.len(),
    ensures
        run_time(files, list.take(i)) <= run_time(files, list.take(j)),
    decreases j - i,
{
    if i < j {
        lemma_run_time_grows(files, list, i, j - 1);
        lemma_run_time_step(files, list, j - 1);
    }
}

/// A schedule that is laid out is in order.
pub proof fn laid_out_is_in_order(s: Schedule, files: Seq<FileInfo>)
    requires
        s.laid_out(files),
    ensures
        s.in_order(),
{
    let list = s.playlist();
    assert(list.len() == s.programs@.len());
    assert(list.take(list.len() as int) =~= list);
    assert(list.take(0) =~= Seq::empty());
    assert forall|i: int, j: int| 0 <= i <= j < s.programs@.len() implies (
    #[trigger] s.programs@[i]).start <= (#[trigger] s.programs@[j]).start by {
        lemma_run_time_grows(files, list, i, j);
    }
    assert forall|i: int| 0 <= i < s.programs@.len() implies (#[trigger] s.programs@[i]).start
        <= s.total by {
        lemma_run_time_grows(files, list, i, list.len() as int);
    }
}

/// At every moment a channel is within a program: no further in than the file is long.
pub proof fn position_lies_within_the_file(s: Schedule, files: Seq<FileInfo>, ch: int, now: int)
    requires
        s.laid_out(files),
        s.programs@.len() > 0,
        s.total > 0,
        0 <= now,
        0 <= ch,
    ensures
        0 <= s.position(ch, now).0 < s.programs@.len(),
        0 <= s.position(ch, now).1 < files[s.programs@[s.position(ch, now).0].file as int].duration,
{
    laid_out_is_in_order(s, files);
    let t = s.loop_time(ch, now);
    vstd::arithmetic::div_mod::lemma_mod_bound(now + ch * 997_000_000, s.total as int);
    lemma_last_started(s.programs@, t);
    let i = s.position(ch, now).0;
    let list = s.playlist();
    lemma_run_time_step(files, list, i);
    if i + 1 < s.programs@.len() {
        assert(s.programs@[i + 1].start == run_time(files, list.take(i + 1)));
    } else {
        assert(list.take(i + 1) =~= list);
    }
}

/// After one whole loop a channel is where it was.
pub proof fn the_loop_repeats(s: Schedule, ch: int, now: int)
    ensures
        s.position(ch, now + s.total) == s.position(ch, now),
{
    if s.total > 0 {
        let x = now + ch * 997_000_000;
        vstd::arithmetic::div_mod::lemma_mod_add_multiples_vanish(x, s.total as int);
        assert(now + s.total + ch * 997_000_000 == s.total + x);
    }
}

/// While a program lasts, the position moves with the clock.
pub proof fn a_program_plays_on(s: Schedule, files: Seq<FileInfo>, ch: int, now: int, d: int)
    requires
        s.laid_out(files),
        s.programs@.len() > 0,
        s.total > 0,
        0 <= now,
        0 <= ch,
        0 <= d,
        s.position(ch, now).1 + d < files[s.programs@[s.position(ch, now).0].file as int].duration,
    ensures
        s.position(ch, now + d) == (s.position(ch, now).0, s.position(ch, now).1 + d),
{
    laid_out_is_in_order(s, files);
    position_lies_within_the_file(s, files, ch, now);
    let (i, off) = s.position(ch, now);
    let total = s.total as int;
    let x = now + ch * 997_000_000;
    let t = x % total;
    let list = s.playlist();
    lemma_run_time_step(files, list, i);
    lemma_run_time_grows(files, list, i + 1, list.len() as int);
    assert(list.take(list.len() as int) =~= list);
    assert(t + d < total);
    vstd::arithmetic::div_mod::lemma_mod_bound(x, total);
    vstd::arithmetic::div_mod::lemma_small_mod((t + d) as nat, total as nat);
    vstd::arithmetic::div_mod::lemma_add_mod_noop(x, d, total);
    vstd::arithmetic::div_mod::lemma_small_mod(d as nat, total as nat);
    assert(now + d + ch * 997_000_000 == x + d);
    assert((x + d) % total == t + d);
    assert forall|j: int| i < j < s.programs@.len() implies t + d < (
    #[trigger] s.programs@[j]).start by {
        lemma_run_time_grows(files, list, i + 1, j);
    }
    lemma_is_last_started(s.programs@, t + d, i);
}

impl Schedule {
    /// (program index, offset into that file) for channel `ch` at `now`.
    pub fn at(&self, ch: usize, now: u64) -> (r: (usize, u128))
        requires
            self.in_order(),
        ensures
            (r.0 as int, r.1 as int) == self.position(ch as int, now as int),
            self.programs@.len() > 0 ==> r.0 < self.programs@.len(),
    {
        if self.programs.len() == 0 || self.total == 0 {
            return (0, 0);
        }
        let t: u128 = (now as u128 + ch as u128 * 997_000_000) % self.total;
        let mut lo: usize = 0;
        let mut hi: usize = self.programs.len();
        while hi - lo > 1
            invariant
                lo < hi <= self.programs@.len(),
                self.in_order(),
                self.programs@[lo as int].start <= t,
                hi < self.programs@.len() ==> t < self.programs@[hi as int].start,
            decreases hi - lo,
        {
            let mid: usize = lo + (hi - lo) / 2;
            if self.programs[mid].start <= t {
                lo = mid;
            } else {
                hi = mid;
            }
        }
        proof {
            lemma_is_last_started(self.programs@, t as int, lo as int);
        }
        (lo, t - self.programs[lo].start)
    }
}

// ---------------------------------------------------------------- now and next

/// Whether entry `j` of a playlist is a station ident.
pub open spec fn is_ident(files: Seq<FileInfo>, programs: Seq<Program>, j: int) -> bool {
    files[programs[j].file as int].bumper
}

/// The entry behind entry `j` of a loop of `m`.
pub open spec fn following(j: int, m: nat) -> int {
    if j + 1 == m {
        0
    } else {
        j + 1
    }
}

/// The first entry from `j` on that is no ident; at most `guard` are skipped.
pub open spec fn skip_idents(
    files: Seq<FileInfo>,
    programs: Seq<Program>,
    j: int,
    guard: nat,
) -> int
    decreases guard,
{
    if guard == 0 || !is_ident(files, programs, j) {
        j
    } else {
        skip_idents(files, programs, following(j, programs.len()), (guard - 1) as nat)
    }
}

/// How long the entries play that `skip_idents` moves on to.
pub open spec fn skipped_time(
    files: Seq<FileInfo>,
    programs: Seq<Program>,
    j: int,
    guard: nat,
) -> nat
    decreases guard,
{
    if guard == 0 || !is_ident(files, programs, j) {
        0
    } else {
        let k = following(j, programs.len());
        files[programs[k].file as int].duration as nat + skipped_time(
            files,
            programs,
            k,
            (guard - 1) as nat,
        )
    }
}

/// What a viewer would call "now" and "next".
#[derive(Clone, Copy, PartialEq, Eq, Structural, Debug)]
pub struct NowNext {
    /// The entry that is on, or about to start.
    pub now: usize,
    pub next: usize,
    /// The time until `now` ends.
    pub left: u128,
    /// `done` of `of` microseconds of `now` have played.
    pub done: u64,
    pub of: u64,
}

impl Schedule {
    /// Now and next on channel `ch`: idents are skipped, so during a station ident "now" is the
    /// program about to start.
    pub open spec fn is_now_next(
        self,
        files: Seq<FileInfo>,
        ch: int,
        now: int,
        r: NowNext,
    ) -> bool {
        let (i, off) = self.position(ch, now);
        let m = self.programs@.len();
        let dur = files[self.programs@[i].file as int].duration;
        &&& r.now == skip_idents(files, self.programs@, i, m)
        &&& r.next == skip_idents(files, self.programs@, following(r.now as int, m), m)
        &&& r.left == dur - off + skipped_time(files, self.programs@, i, m)
        &&& r.done == (if is_ident(files, self.programs@, i) {
            0
        } else {
            off
        })
        &&& r.of == (if dur < 1000 {
            1000
        } else {
            dur
        })
    }

    /// What a viewer would call "now" and "next": idents are skipped, so during a station ident
    /// "now" is the program about to start.
    pub fn now_next(&self, files: &Vec<FileInfo>, ch: usize, now: u64) -> (r: NowNext)
        requires
            self.laid_out(files@),
            self.programs@.len() > 0,
        ensures
            self.is_now_next(files@, ch as int, now as int, r),
            r.now < self.programs@.len(),
            r.next < self.programs@.len(),
            r.done <= r.of,
    {
        proof {
            laid_out_is_in_order(*self, files@);
        }
        let (i, off) = self.at(ch, now);
        let m: usize = self.programs.len();
        let dur: u64 = files[self.programs[i].file].duration;
        proof {
            if self.total > 0 {
                position_lies_within_the_file(*self, files@, ch as int, now as int);
            }
        }
        let mut j: usize = i;
        let mut left: u128 = dur as u128 - off;
        let done: u64 = if files[self.programs[i].file].bumper {
            0
        } else {
            off as u64
        };
        let mut guard: usize = 0;
        let ghost first = left;
        while guard < m && files[self.programs[j].file].bumper
            invariant
                guard <= m == self.programs@.len(),
                m > 0,
                i < m,
                j < m,
                self.names_files(files@),
                first <= u64::MAX,
                left <= first + guard * 0xffff_ffff_ffff_ffff,
                left + skipped_time(files@, self.programs@, j as int, (m - guard) as nat) == first
                    + skipped_time(files@, self.programs@, i as int, m as nat),
                skip_idents(files@, self.programs@, j as int, (m - guard) as nat) == skip_idents(
                    files@,
                    self.programs@,
                    i as int,
                    m as nat,
                ),
            decreases m - guard,
        {
            j = if j + 1 == m { 0 } else { j + 1 };
            left = left + files[self.programs[j].file].duration as u128;
            guard += 1;
        }
        let mut k: usize = if j + 1 == m { 0 } else { j + 1 };
        let ghost from = k;
        guard = 0;
        while guard < m && files[self.programs[k].file].bumper
            invariant
                guard <= m == self.programs@.len(),
                m > 0,
                k < m,
                self.names_files(files@),
                skip_idents(files@, self.programs@, k as int, (m - guard) as nat) == skip_idents(
                    files@,
                    self.programs@,
                    from as int,
                    m as nat,
                ),
            decreases m - guard,
        {
            k = if k + 1 == m { 0 } else { k + 1 };
            guard += 1;
        }
        NowNext { now: j, next: k, left, done, of: if dur < 1000 { 1000 } else { dur } }
    }
}

/// Of `n` entries in a row round the loop one is entry `p`, at most `n - 1` steps away.
proof fn lemma_skip_finds(
    files: Seq<FileInfo>,
    programs: Seq<Program>,
    j: int,
    guard: nat,
    p: int,
)
    requires
        0 <= j < programs.len(),
        0 <= p < programs.len(),
        !is_ident(files, programs, p),
        (if p >= j {
            p - j
        } else {
            p + programs.len() - j
        }) <= guard,
    ensures
        0 <= skip_idents(files, programs, j, guard) < programs.len(),
        !is_ident(files, programs, skip_idents(files, programs, j, guard)),
    decreases guard,
{
    if guard > 0 && is_ident(files, programs, j) {
        lemma_skip_finds(files, programs, following(j, programs.len()), (guard - 1) as nat, p);
    }
}

/// Neither "now" nor "next" is an ident on a channel that has a program at all.
pub proof fn now_and_next_are_programs(
    s: Schedule,
    files: Seq<FileInfo>,
    ch: int,
    now: int,
    r: NowNext,
    p: int,
)
    requires
        s.laid_out(files),
        0 <= ch,
        0 <= now,
        0 <= p < s.programs@.len(),
        !is_ident(files, s.programs@, p),
        s.is_now_next(files, ch, now, r),
    ensures
        !is_ident(files, s.programs@, r.now as int),
        !is_ident(files, s.programs@, r.next as int),
{
    if s.total > 0 {
        position_lies_within_the_file(s, files, ch, now);
    }
    let i = s.position(ch, now).0;
    let m = s.programs@.len();
    lemma_skip_finds(files, s.programs@, i, m, p);
    lemma_skip_finds(files, s.programs@, following(r.now as int, m), m, p);
}

// ---------------------------------------------------------------- how long "now" lasts

/// A channel that is as far in its loop as entry `j` and `x` more, `x` being less than the entry
/// lasts, plays entry `j`.
proof fn lemma_plays(s: Schedule, files: Seq<FileInfo>, ch: int, now: int, j: int, x: int)
    requires
        s.laid_out(files),
        s.total > 0,
        0 <= j < s.programs@.len(),
        0 <= x < files[s.programs@[j].file as int].duration,
        s.loop_time(ch, now) == s.programs@[j].start + x,
    ensures
        s.position(ch, now) == (j, x),
{
    let list = s.playlist();
    let t = s.programs@[j].start + x;
    lemma_run_time_step(files, list, j);
    assert forall|k: int| j < k < s.programs@.len() implies t < (#[trigger] s.programs@[k]).start by {
        lemma_run_time_grows(files, list, j + 1, k);
    }
    lemma_is_last_started(s.programs@, t, j);
}

/// An entry ends where the next one starts, and the last one where the loop does.
proof fn lemma_entry_ends(s: Schedule, files: Seq<FileInfo>, j: int)
    requires
        s.laid_out(files),
        0 <= j < s.programs@.len(),
    ensures
        s.programs@[j].start + files[s.programs@[j].file as int].duration == (if j + 1
            == s.programs@.len() {
            s.total
        } else {
            s.programs@[j + 1].start
        }),
        s.programs@[j].start + files[s.programs@[j].file as int].duration <= s.total,
        s.programs@[0].start == 0,
{
    let list = s.playlist();
    lemma_run_time_step(files, list, j);
    lemma_run_time_grows(files, list, j + 1, list.len() as int);
    assert(list.take(list.len() as int) =~= list);
    assert(list.take(0) =~= Seq::empty());
}

/// `d` later a channel is `d` further in its loop.
proof fn lemma_loop_on(s: Schedule, ch: int, now: int, d: int)
    requires
        s.total > 0,
    ensures
        s.loop_time(ch, now + d) == (s.loop_time(ch, now) + d) % (s.total as int),
{
    let x = now + ch * 997_000_000;
    vstd::arithmetic::div_mod::lemma_add_mod_noop(x, d, s.total as int);
    vstd::arithmetic::div_mod::lemma_add_mod_noop(x % (s.total as int), d, s.total as int);
    vstd::arithmetic::div_mod::lemma_mod_twice(x, s.total as int);
    assert(now + d + ch * 997_000_000 == x + d);
}

/// If entry `j` is over in `e`, then the entry that idents are skipped to is over in
/// `skipped_time` more: it is the last thing that plays till then, and before it only idents do.
proof fn lemma_skip_lasts(
    s: Schedule,
    files: Seq<FileInfo>,
    ch: int,
    now: int,
    j: int,
    guard: nat,
    e: int,
)
    requires
        s.laid_out(files),
        s.total > 0,
        0 <= j < s.programs@.len(),
        (s.loop_time(ch, now) + e) % (s.total as int) == (s.programs@[j].start
            + files[s.programs@[j].file as int].duration) % (s.total as int),
    ensures
        ({
            let k = skip_idents(files, s.programs@, j, guard);
            let extra = skipped_time(files, s.programs@, j, guard);
            let dur = files[s.programs@[k].file as int].duration;
            &&& 0 <= k < s.programs@.len()
            &&& (extra == 0 && k == j) || extra >= dur
            &&& (s.loop_time(ch, now) + e + extra) % (s.total as int) == (s.programs@[k].start
                + dur) % (s.total as int)
            &&& forall|d: int|
                e <= d < e + extra - dur ==> is_ident(
                    files,
                    s.programs@,
                    #[trigger] s.position(ch, now + d).0,
                )
            &&& forall|d: int|
                e <= d && e + extra - dur <= d < e + extra ==> #[trigger] s.position(ch, now + d)
                    == (k, d - (e + extra - dur))
        }),
    decreases guard,
{
    let total = s.total as int;
    let programs = s.programs@;
    let m = programs.len();
    if guard > 0 && is_ident(files, programs, j) {
        let n = following(j, m);
        let dn = files[programs[n].file as int].duration as int;
        let lt = s.loop_time(ch, now);
        lemma_entry_ends(s, files, j);
        lemma_entry_ends(s, files, n);
        vstd::arithmetic::div_mod::lemma_mod_self_0(total);
        let start = programs[n].start as int;
        assert((lt + e) % total == start % total) by {
            if j + 1 == m {
                vstd::arithmetic::div_mod::lemma_small_mod(0, total as nat);
            }
        }
        vstd::arithmetic::div_mod::lemma_add_mod_noop(lt + e, dn, total);
        vstd::arithmetic::div_mod::lemma_add_mod_noop(start, dn, total);
        let e2 = e + dn;
        assert((lt + e2) % total == (start + dn) % total);
        assert forall|d: int| e <= d < e2 implies #[trigger] s.position(ch, now + d) == (n, d - e) by {
            lemma_loop_on(s, ch, now, d);
            vstd::arithmetic::div_mod::lemma_add_mod_noop(lt + e, d - e, total);
            vstd::arithmetic::div_mod::lemma_add_mod_noop(start, d - e, total);
            vstd::arithmetic::div_mod::lemma_small_mod((start + d - e) as nat, total as nat);
            assert(lt + e + (d - e) == lt + d);
            lemma_plays(s, files, ch, now + d, n, d - e);
        }
        lemma_skip_lasts(s, files, ch, now, n, (guard - 1) as nat, e2);
    }
}

/// "Left" is the time until "now" has ended. So long as it runs, only idents play, and then "now"
/// itself, from its beginning or from where it is to its very end: for as long as its file lasts,
/// counted back from the moment at which nothing is left.
pub proof fn left_is_the_time_until_now_ends(
    s: Schedule,
    files: Seq<FileInfo>,
    ch: int,
    now: int,
    r: NowNext,
    d: int,
)
    requires
        s.laid_out(files),
        s.programs@.len() > 0,
        s.total > 0,
        0 <= now,
        0 <= ch,
        s.is_now_next(files, ch, now, r),
        0 <= d < r.left,
    ensures
        ({
            let dur = files[s.programs@[r.now as int].file as int].duration;
            &&& r.left <= d + dur ==> s.position(ch, now + d) == (r.now as int, d + dur - r.left)
            &&& d + dur < r.left ==> is_ident(files, s.programs@, s.position(ch, now + d).0)
        }),
{
    lemma_left(s, files, ch, now, r);
    let (i, off) = s.position(ch, now);
    position_lies_within_the_file(s, files, ch, now);
    let e = files[s.programs@[i].file as int].duration - off;
    if d < e {
        a_program_plays_on(s, files, ch, now, d);
    }
}

proof fn lemma_left(s: Schedule, files: Seq<FileInfo>, ch: int, now: int, r: NowNext)
    requires
        s.laid_out(files),
        s.programs@.len() > 0,
        s.total > 0,
        0 <= now,
        0 <= ch,
        s.is_now_next(files, ch, now, r),
    ensures
        ({
            let (i, off) = s.position(ch, now);
            let e = files[s.programs@[i].file as int].duration - off;
            let dur = files[s.programs@[r.now as int].file as int].duration;
            &&& r.now < s.programs@.len()
            &&& (r.left == e && r.now == i) || r.left >= e + dur
            &&& r.now != i ==> is_ident(files, s.programs@, i)
            &&& r.left != e ==> is_ident(files, s.programs@, i)
            &&& (s.loop_time(ch, now) + r.left) % (s.total as int) == (
            s.programs@[r.now as int].start + dur) % (s.total as int)
            &&& forall|d: int|
                e <= d < r.left - dur ==> is_ident(
                    files,
                    s.programs@,
                    #[trigger] s.position(ch, now + d).0,
                )
            &&& forall|d: int|
                e <= d && r.left - dur <= d < r.left ==> #[trigger] s.position(ch, now + d) == (
                    r.now as int,
                    d - (r.left - dur),
                )
        }),
{
    position_lies_within_the_file(s, files, ch, now);
    let (i, off) = s.position(ch, now);
    let e = files[s.programs@[i].file as int].duration - off;
    assert(s.loop_time(ch, now) + e == s.programs@[i].start
        + files[s.programs@[i].file as int].duration);
    lemma_skip_lasts(s, files, ch, now, i, s.programs@.len(), e);
}

/// Once "left" has run out, the channel stands where the file of "now" ends in the loop; and while
/// an ident plays, "left" is at least as long as the program that is about to start.
pub proof fn now_ends_where_its_file_does(
    s: Schedule,
    files: Seq<FileInfo>,
    ch: int,
    now: int,
    r: NowNext,
)
    requires
        s.laid_out(files),
        s.programs@.len() > 0,
        s.total > 0,
        0 <= now,
        0 <= ch,
        s.is_now_next(files, ch, now, r),
    ensures
        ({
            let total = s.total as int;
            let p = s.programs@[r.now as int];
            let dur = files[p.file as int].duration;
            let (i, off) = s.position(ch, now);
            &&& s.loop_time(ch, now + r.left) == (p.start + dur) % total
            &&& r.now != i ==> r.left >= dur
            &&& !is_ident(files, s.programs@, i) ==> r.now == i && r.left == dur - off && r.done
                == off && (dur >= 1000 ==> r.of == dur)
            &&& is_ident(files, s.programs@, i) ==> r.done == 0
            &&& r.left > 0
        }),
{
    lemma_left(s, files, ch, now, r);
    position_lies_within_the_file(s, files, ch, now);
    lemma_loop_on(s, ch, now, r.left as int);
}

/// How many entries are skipped from entry `j` on, round the loop: all of them are idents, and the
/// one behind them is none, if there is any that is none.
proof fn lemma_skip_count(
    files: Seq<FileInfo>,
    programs: Seq<Program>,
    j: int,
    guard: nat,
) -> (n: int)
    requires
        0 <= j < programs.len(),
    ensures
        0 <= n <= guard,
        skip_idents(files, programs, j, guard) == (j + n) % (programs.len() as int),
        forall|t: int|
            0 <= t < n ==> is_ident(files, programs, #[trigger] ((j + t) % (programs.len() as int))),
    decreases guard,
{
    let m = programs.len() as int;
    if guard > 0 && is_ident(files, programs, j) {
        let k = following(j, programs.len());
        let n = lemma_skip_count(files, programs, k, (guard - 1) as nat);
        assert(forall|t: int| #[trigger] ((k + t) % m) == (j + (t + 1)) % m) by {
            assert forall|t: int| #[trigger] ((k + t) % m) == (j + (t + 1)) % m by {
                if j + 1 == m {
                    vstd::arithmetic::div_mod::lemma_mod_add_multiples_vanish(t, m);
                }
            }
        }
        assert forall|t: int| 0 <= t < n + 1 implies is_ident(
            files,
            programs,
            #[trigger] ((j + t) % m),
        ) by {
            if t == 0 {
                vstd::arithmetic::div_mod::lemma_small_mod(j as nat, m as nat);
            } else {
                let u = t - 1;
                assert((k + u) % m == (j + (u + 1)) % m);
            }
        }
        assert((k + n) % m == (j + (n + 1)) % m);
        n + 1
    } else {
        vstd::arithmetic::div_mod::lemma_small_mod(j as nat, m as nat);
        0
    }
}

/// "Now" is the first program from the entry that plays on, round the loop: what lies before it is
/// idents.
pub proof fn now_is_the_first_program_from_here(
    s: Schedule,
    files: Seq<FileInfo>,
    ch: int,
    now: int,
    r: NowNext,
) -> (n: int)
    requires
        s.laid_out(files),
        s.programs@.len() > 0,
        0 <= now,
        0 <= ch,
        s.is_now_next(files, ch, now, r),
    ensures
        0 <= n <= s.programs@.len(),
        r.now == (s.position(ch, now).0 + n) % (s.programs@.len() as int),
        forall|t: int|
            0 <= t < n ==> is_ident(
                files,
                s.programs@,
                #[trigger] ((s.position(ch, now).0 + t) % (s.programs@.len() as int)),
            ),
{
    if s.total > 0 {
        position_lies_within_the_file(s, files, ch, now);
    }
    lemma_skip_count(files, s.programs@, s.position(ch, now).0, s.programs@.len())
}

/// "Next" is the first program behind "now", round the loop: whatever lies between them is an ident.
pub proof fn next_is_the_first_program_behind_now(
    s: Schedule,
    files: Seq<FileInfo>,
    ch: int,
    now: int,
    r: NowNext,
) -> (n: int)
    requires
        s.laid_out(files),
        s.programs@.len() > 0,
        0 <= now,
        0 <= ch,
        s.is_now_next(files, ch, now, r),
    ensures
        1 <= n <= s.programs@.len() + 1,
        r.next == (r.now + n) % (s.programs@.len() as int),
        forall|t: int|
            1 <= t < n ==> is_ident(
                files,
                s.programs@,
                #[trigger] ((r.now + t) % (s.programs@.len() as int)),
            ),
{
    let m = s.programs@.len() as int;
    if s.total > 0 {
        position_lies_within_the_file(s, files, ch, now);
    }
    let i = s.position(ch, now).0;
    let skipped = lemma_skip_count(files, s.programs@, i, m as nat);
    vstd::arithmetic::div_mod::lemma_mod_bound(i + skipped, m);
    let j = following(r.now as int, m as nat);
    let n = lemma_skip_count(files, s.programs@, j, m as nat);
    assert forall|t: int| #[trigger] ((j + t) % m) == (r.now + (t + 1)) % m by {
        if r.now + 1 == m {
            vstd::arithmetic::div_mod::lemma_mod_add_multiples_vanish(t, m);
        }
    }
    assert forall|t: int| 1 <= t < n + 1 implies is_ident(
        files,
        s.programs@,
        #[trigger] ((r.now + t) % m),
    ) by {
        let u = t - 1;
        assert((j + u) % m == (r.now + (u + 1)) % m);
    }
    assert((j + n) % m == (r.now + (n + 1)) % m);
    n + 1
}

/// The next channel up is 997 seconds ahead: it plays now what this one, had it the same schedule,
/// would play by then.
pub proof fn channels_are_997_seconds_apart(s: Schedule, ch: int, now: int)
    ensures
        s.position(ch + 1, now) == s.position(ch, now + 997_000_000),
{
    assert(now + (ch + 1) * 997_000_000 == now + 997_000_000 + ch * 997_000_000);
}

} // verus!
