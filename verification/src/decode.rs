//! Decisions of the decode side: what a pipeline reads, keeps, ships and gives back. The outside
//! does the reading and decoding.
//!
//! Timestamps and offsets are microseconds into the file that plays.

use vstd::prelude::*;
use crate::audio::{SoundQueue, AUDIO_LEAD};
use crate::pace::{late, LATE};
use crate::station::Station;
use crate::tv::Cmd;

verus! {

// ---------------------------------------------------------------- timestamps

/// A number divided, toward zero.
pub open spec fn toward_zero(n: int, d: int) -> int {
    if n >= 0 {
        n / d
    } else {
        -((-n) / d)
    }
}

/// A number held to what 64 bits can say.
pub open spec fn in_64_bits(t: int) -> int {
    if t > i64::MAX {
        i64::MAX as int
    } else if t < i64::MIN {
        i64::MIN as int
    } else {
        t
    }
}

fn to_64_bits(t: i128) -> (r: i64)
    ensures
        r == in_64_bits(t as int),
{
    if t > i64::MAX as i128 {
        i64::MAX
    } else if t < i64::MIN as i128 {
        i64::MIN
    } else {
        t as i64
    }
}

/// The stream tick at `offset` microseconds, ticks being `num`/`den` seconds long. More than a
/// 64-bit number of ticks there are not.
pub open spec fn ticks_at(offset: int, num: int, den: int) -> int {
    in_64_bits(toward_zero(offset * den, num * 1_000_000))
}

/// The stream tick at `offset` microseconds, ticks being `num`/`den` seconds long.
pub fn to_ticks(offset: i64, num: i32, den: i32) -> (r: i64)
    requires
        0 < num,
        0 < den,
    ensures
        r == ticks_at(offset as int, num as int, den as int),
{
    proof {
        assert(-0x8000_0000_0000_0000 * 0x7fff_ffff <= offset * den <= 0x8000_0000_0000_0000
            * 0x7fff_ffff) by (nonlinear_arith)
            requires
                -0x8000_0000_0000_0000 <= offset <= 0x8000_0000_0000_0000,
                0 <= den <= 0x7fff_ffff,
        ;
    }
    let n: i128 = offset as i128 * den as i128;
    let d: i128 = num as i128 * 1_000_000;
    let t: i128 = if n >= 0 { n / d } else { -((-n) / d) };
    to_64_bits(t)
}

/// The microsecond of a stream tick, as far as 64 bits can say it.
pub open spec fn micros_at(ticks: int, num: int, den: int) -> int {
    in_64_bits(toward_zero(ticks * num * 1_000_000, den))
}

/// The microsecond of a stream tick, ticks being `num`/`den` seconds long.
pub fn to_micros(ticks: i64, num: i32, den: i32) -> (r: i64)
    requires
        0 < num,
        0 < den,
    ensures
        r == micros_at(ticks as int, num as int, den as int),
{
    proof {
        assert(-0x8000_0000_0000_0000 * 0x7fff_ffff <= ticks * num <= 0x8000_0000_0000_0000
            * 0x7fff_ffff) by (nonlinear_arith)
            requires
                -0x8000_0000_0000_0000 <= ticks <= 0x8000_0000_0000_0000,
                0 <= num <= 0x7fff_ffff,
        ;
    }
    let n: i128 = ticks as i128 * num as i128 * 1_000_000;
    let d: i128 = den as i128;
    let t: i128 = if n >= 0 { n / d } else { -((-n) / d) };
    to_64_bits(t)
}

// ---------------------------------------------------------------- what a pipeline keeps

/// How many decoded frames at the front are dropped: those already more than 40 ms late, always
/// keeping one.
pub fn trim_video(pts: &Vec<i64>, offset: i64) -> (r: usize)
    ensures
        r == late(pts@, offset as int),
        pts@.len() > 0 ==> r < pts@.len(),
{
    let n: usize = pts.len();
    let mut i: usize = 0;
    assert(pts@.skip(0) =~= pts@);
    while i + 1 < n && (pts[i] as i128) - (offset as i128) < -(LATE as i128)
        invariant
            i <= n == pts@.len(),
            n > 0 ==> i < n,
            late(pts@, offset as int) == i + late(pts@.skip(i as int), offset as int),
        decreases n - i,
    {
        assert(pts@.skip(i as int).drop_first() =~= pts@.skip(i + 1));
        i += 1;
    }
    i
}

/// How many frames at the front fall due by `t`.
pub open spec fn due_by(pts: Seq<i64>, t: int) -> int
    decreases pts.len(),
{
    if pts.len() > 0 && pts[0] <= t {
        1 + due_by(pts.drop_first(), t)
    } else {
        0
    }
}

/// How many frames are shipped to the screen: those that fall due within the next 150 ms; the
/// screen paces and presents them.
pub fn count_due(pts: &Vec<i64>, offset: i64) -> (r: usize)
    ensures
        r == due_by(pts@, offset + 150_000),
        r <= pts@.len(),
{
    let t: i128 = offset as i128 + 150_000;
    let mut i: usize = 0;
    assert(pts@.skip(0) =~= pts@);
    while i < pts.len() && pts[i] as i128 <= t
        invariant
            i <= pts@.len(),
            due_by(pts@, t as int) == i + due_by(pts@.skip(i as int), t as int),
        decreases pts@.len() - i,
    {
        assert(pts@.skip(i as int).drop_first() =~= pts@.skip(i + 1));
        i += 1;
    }
    i
}

/// What is shipped is due within 150 ms, and what is kept behind it is not.
pub proof fn shipping_keeps_what_is_not_due(pts: Seq<i64>, t: int)
    ensures
        0 <= due_by(pts, t) <= pts.len(),
        forall|i: int| 0 <= i < due_by(pts, t) ==> #[trigger] pts[i] <= t,
        due_by(pts, t) < pts.len() ==> pts[due_by(pts, t)] > t,
    decreases pts.len(),
{
    if pts.len() > 0 && pts[0] <= t {
        let rest = pts.drop_first();
        shipping_keeps_what_is_not_due(rest, t);
        let n = due_by(rest, t);
        assert forall|i: int| 0 <= i < due_by(pts, t) implies #[trigger] pts[i] <= t by {
            if i > 0 {
                assert(rest[i - 1] == pts[i]);
            }
        }
        if n < rest.len() {
            assert(rest[n] == pts[n + 1]);
        }
    }
}

/// More has to be read: the decoded video or the decoded sound does not reach to `horizon`. A file
/// without sound has all of it.
pub open spec fn behind(last: Option<i64>, sound: Option<SoundQueue>, horizon: int) -> bool {
    (match last {
        Some(p) => p < horizon,
        None => true,
    }) || (match sound {
        Some(q) => !q.reaches(horizon),
        None => false,
    })
}

fn is_behind(last: Option<i64>, sound: &Option<SoundQueue>, offset: i64, ahead: u32) -> (r: bool)
    requires
        sound matches Some(q) ==> q.wf(),
    ensures
        r == behind(last, *sound, offset + ahead),
{
    let video = match last {
        Some(p) => (p as i128) < offset as i128 + ahead as i128,
        None => true,
    };
    video || match sound {
        Some(q) => !q.covers(offset, ahead),
        None => false,
    }
}

/// Read ahead until video and sound both cover the near future, 250 ms; eight packets a pass.
pub fn reads_on(last: Option<i64>, sound: &Option<SoundQueue>, offset: i64, read: u32) -> (r: bool)
    requires
        sound matches Some(q) ==> q.wf(),
    ensures
        r == (behind(last, *sound, offset + AUDIO_LEAD + 150_000) && read < 8),
{
    is_behind(last, sound, offset, AUDIO_LEAD as u32 + 150_000) && read < 8
}

/// A hot neighbour reads ahead 200 ms; ten packets a pass, so its lock is never held long.
pub fn follows_on(
    last: Option<i64>,
    sound: &Option<SoundQueue>,
    offset: i64,
    read: u32,
) -> (r: bool)
    requires
        sound matches Some(q) ==> q.wf(),
    ensures
        r == (behind(last, *sound, offset + AUDIO_LEAD + 100_000) && read < 10),
{
    is_behind(last, sound, offset, AUDIO_LEAD as u32 + 100_000) && read < 10
}

// ---------------------------------------------------------------- where to read from

/// A hot neighbour has lost the schedule point: nothing is decoded, or what is next is more than
/// 1.5 s behind or 0.5 s ahead. At the end of a file what is left of it is played out.
pub open spec fn lost(front: Option<i64>, eof: bool, offset: int) -> bool {
    match front {
        Some(p) => (offset - p < -500_000 || offset - p > 1_500_000) && !eof,
        None => true,
    }
}

/// Whether a hot neighbour has to seek.
pub fn has_lost(front: Option<i64>, eof: bool, offset: i64) -> (r: bool)
    ensures
        r == lost(front, eof, offset as int),
{
    match front {
        Some(p) => {
            let d: i128 = offset as i128 - p as i128;
            (d < -500_000 || d > 1_500_000) && !eof
        },
        None => true,
    }
}

/// An idle channel is primed already: its first frame is decoded, from the keyframe wanted now.
pub fn is_primed(decoded: usize, primed_ts: i64, keyframe: i64) -> (r: bool)
    ensures
        r == (decoded > 0 && primed_ts == keyframe),
{
    decoded > 0 && primed_ts == keyframe
}

/// The active channel moves on to another file, or back to the schedule point.
pub open spec fn rolls_over(
    wanted: usize,
    file: usize,
    eof: bool,
    front: Option<i64>,
    offset: int,
) -> bool {
    wanted != file || (match front {
        Some(p) => p - offset > 1_000_000,
        None => eof,
    })
}

/// The active channel moves on: the schedule wants another file, this one has been played out, or
/// what is next is more than a second ahead.
pub fn rollover(wanted: usize, file: usize, eof: bool, front: Option<i64>, offset: i64) -> (r: bool)
    ensures
        r == rolls_over(wanted, file, eof, front, offset as int),
{
    wanted != file || match front {
        Some(p) => p as i128 - offset as i128 > 1_000_000,
        None => eof,
    }
}

/// The next program is opened ahead of time: three seconds before this one ends, unless it is
/// under way or done.
pub fn preopens(remaining: i64, pending: bool, opened: Option<usize>, next: usize) -> (r: bool)
    ensures
        r == (remaining < 3_000_000 && !pending && opened != Some(next)),
{
    remaining < 3_000_000 && !pending && match opened {
        Some(f) => f != next,
        None => true,
    }
}

impl Station {
    /// The file that plays after entry `i` of channel `ch`.
    pub open spec fn file_after(self, ch: int, i: int) -> usize {
        let p = self.scheds@[ch].programs@;
        p[crate::schedule::following(i, p.len())].file
    }

    /// The file that plays after entry `i` of channel `ch`.
    pub fn next_file(&self, ch: usize, i: usize) -> (r: usize)
        requires
            self.wf(),
            ch < self.count(),
            i < self.scheds@[ch as int].programs@.len(),
        ensures
            r == self.file_after(ch as int, i as int),
            r < self.files@.len(),
    {
        let p = &self.scheds[ch].programs;
        assert(self.scheds@[ch as int].names_files(self.files@));
        let m: usize = p.len();
        let k: usize = if i == m - 1 { 0 } else { i + 1 };
        p[k].file
    }

    /// What channel `ch` plays at `now`: the entry, its file, and the offset into it. None on a
    /// channel without programs.
    pub fn playing(&self, ch: usize, now: u64) -> (r: Option<(usize, usize, i64)>)
        requires
            self.wf(),
            ch < self.count(),
        ensures
            match r {
                Some((i, f, off)) => ({
                    let (j, o) = self.scheds@[ch as int].position(ch as int, now as int);
                    &&& !self.dark(ch as int)
                    &&& i == j
                    &&& i < self.scheds@[ch as int].programs@.len()
                    &&& f == self.scheds@[ch as int].programs@[i as int].file
                    &&& f < self.files@.len()
                    &&& off == in_64_bits(o)
                    &&& 0 <= off
                }),
                None => self.dark(ch as int),
            },
    {
        if self.is_dark(ch) {
            return None;
        }
        proof {
            crate::schedule::laid_out_is_in_order(self.scheds@[ch as int], self.files@);
            assert(self.scheds@[ch as int].names_files(self.files@));
        }
        let s = &self.scheds[ch];
        let (i, o) = s.at(ch, now);
        let off: i64 = if o > i64::MAX as u128 { i64::MAX } else { o as i64 };
        Some((i, s.programs[i].file, off))
    }
}

// ---------------------------------------------------------------- switching channels

/// Where the pipeline for a file comes from.
#[derive(Clone, Copy, PartialEq, Eq, Structural, Debug)]
pub enum Source {
    /// The channel's own, kept warm in its slot.
    Slot,
    /// The next program's, opened ahead of time; the slot keeps its own.
    Next,
    /// It has to be opened: neither is for this file.
    Cold,
}

/// Where the pipeline for `file` comes from.
pub open spec fn source_of(slot: Option<usize>, next: Option<usize>, file: usize) -> Source {
    if slot == Some(file) {
        Source::Slot
    } else if next == Some(file) {
        Source::Next
    } else {
        Source::Cold
    }
}

/// Where the pipeline for `file` comes from: the channel's slot, else what was opened ahead, else
/// it is opened now.
pub fn choose_source(slot: Option<usize>, next: Option<usize>, file: usize) -> (r: Source)
    ensures
        r == source_of(slot, next, file),
{
    let own = match slot {
        Some(f) => f == file,
        None => false,
    };
    let ahead = match next {
        Some(f) => f == file,
        None => false,
    };
    if own {
        Source::Slot
    } else if ahead {
        Source::Next
    } else {
        Source::Cold
    }
}

/// What is to be played once all commands are in.
#[derive(Clone, Copy, PartialEq, Eq, Structural, Debug)]
pub struct Order {
    pub src: usize,
    pub gen: u64,
    pub guide: bool,
    pub stop: bool,
}

/// The order once a further command has come: only the latest keypress matters.
pub open spec fn amended(o: Order, c: Cmd) -> Order {
    match c {
        Cmd::Tune { src, gen, guide } => Order { src, gen, guide, stop: false },
        Cmd::Music(m) => Order { guide: m, ..o },
        Cmd::Stop => Order { stop: true, ..o },
    }
}

/// The order once all of `more` have come.
pub open spec fn amended_by(o: Order, more: Seq<Cmd>) -> Order
    decreases more.len(),
{
    if more.len() == 0 {
        o
    } else {
        amended(amended_by(o, more.drop_last()), more.last())
    }
}

/// A tune to `src` came, and `more` after it: only the latest keypress matters.
pub fn merge(src: usize, gen: u64, guide: bool, more: &Vec<Cmd>) -> (r: Order)
    ensures
        r == amended_by((Order { src, gen, guide, stop: false }), more@),
{
    let mut o = Order { src, gen, guide, stop: false };
    let ghost first = o;
    let mut i: usize = 0;
    assert(more@.take(0) =~= Seq::empty());
    while i < more.len()
        invariant
            i <= more@.len(),
            o == amended_by(first, more@.take(i as int)),
        decreases more@.len() - i,
    {
        proof {
            assert(more@.take(i + 1).drop_last() =~= more@.take(i as int));
            assert(more@.take(i + 1).last() == more@[i as int]);
        }
        match more[i] {
            Cmd::Tune { src, gen, guide } => o = Order { src, gen, guide, stop: false },
            Cmd::Music(m) => o = Order { guide: m, ..o },
            Cmd::Stop => o = Order { stop: true, ..o },
        }
        i += 1;
    }
    assert(more@.take(more@.len() as int) =~= more@);
    o
}

/// Whatever came before it, a tune that comes last is what is played.
pub proof fn the_latest_tune_wins(o: Order, more: Seq<Cmd>, src: usize, gen: u64, guide: bool)
    ensures
        amended_by(o, more.push(Cmd::Tune { src, gen, guide })) == (Order {
            src,
            gen,
            guide,
            stop: false,
        }),
{
    let all = more.push(Cmd::Tune { src, gen, guide });
    assert(all.drop_last() =~= more);
}

// ---------------------------------------------------------------- idle channels

/// What a worker does for a channel.
#[derive(Clone, Copy, PartialEq, Eq, Structural, Debug)]
pub enum Job {
    /// It is the guide, has no schedule, or belongs to the decode side.
    Skip,
    /// A neighbour of the channel that is on: it is kept caught up with the schedule.
    Follow,
    /// It is kept at the keyframe before the schedule point.
    Prime,
}

/// One step up or down from the channel that is on, of `n` in all.
pub open spec fn is_hot(ch: int, active: int, n: int) -> bool {
    active < n && n > 2 && (ch == (active + 1) % n || ch == (active + n - 1) % n)
}

impl Station {
    /// What a worker does for channel `ch` while `active` is on.
    pub fn worker_job(&self, ch: usize, active: usize) -> (r: Job)
        requires
            self.wf(),
            ch < self.count(),
        ensures
            r == (if ch == 0 || ch == active || self.dark(ch as int) {
                Job::Skip
            } else if is_hot(ch as int, active as int, self.count()) {
                Job::Follow
            } else {
                Job::Prime
            }),
    {
        if ch == 0 || ch == active || self.is_dark(ch) {
            return Job::Skip;
        }
        let n: usize = self.scheds.len();
        if active < n && n > 2 {
            let up: usize = if active + 1 == n { 0 } else { active + 1 };
            let down: usize = if active == 0 { n - 1 } else { active - 1 };
            proof {
                lemma_neighbours(active as int, n as int);
            }
            if ch == up || ch == down {
                return Job::Follow;
            }
        }
        Job::Prime
    }
}

proof fn lemma_neighbours(a: int, n: int)
    requires
        0 <= a < n,
    ensures
        (a + 1) % n == (if a + 1 == n {
            0
        } else {
            a + 1
        }),
        (a + n - 1) % n == (if a == 0 {
            n - 1
        } else {
            a - 1
        }),
{
    if a + 1 == n {
        vstd::arithmetic::div_mod::lemma_mod_self_0(n);
    } else {
        vstd::arithmetic::div_mod::lemma_small_mod((a + 1) as nat, n as nat);
    }
    if a == 0 {
        vstd::arithmetic::div_mod::lemma_small_mod((n - 1) as nat, n as nat);
    } else {
        vstd::arithmetic::div_mod::lemma_mod_add_multiples_vanish(a - 1, n);
        vstd::arithmetic::div_mod::lemma_small_mod((a - 1) as nat, n as nat);
        assert(a + n - 1 == n + (a - 1));
    }
}

/// A slot that is found empty belongs to the decode side if its channel has come on meanwhile.
pub fn has_left(slot_empty: bool, ch: usize, active: usize) -> (r: bool)
    ensures
        r == (slot_empty && ch == active),
{
    slot_empty && ch == active
}

// ---------------------------------------------------------------- hardware formats

/// What is known of a pixel format that a decoder offers.
#[derive(Clone, Copy, PartialEq, Eq, Structural, Debug)]
pub struct Offer {
    /// The format that the presenter takes without a copy.
    pub native: bool,
    /// One that lives in main memory.
    pub software: bool,
}

/// The first offer for which `native` holds, or else the first in main memory.
pub open spec fn is_pick(fmts: Seq<Offer>, r: Option<usize>) -> bool {
    if exists|i: int| 0 <= i < fmts.len() && (#[trigger] fmts[i]).native {
        r matches Some(k) && k < fmts.len() && fmts[k as int].native && forall|i: int|
            0 <= i < k ==> !(#[trigger] fmts[i]).native
    } else if exists|i: int| 0 <= i < fmts.len() && (#[trigger] fmts[i]).software {
        r matches Some(k) && k < fmts.len() && fmts[k as int].software && forall|i: int|
            0 <= i < k ==> !(#[trigger] fmts[i]).software
    } else {
        r is None
    }
}

/// Pick the native format when the decoder offers it, else the first *software* format. (Another
/// hardware format would be tried in vain before falling back.)
pub fn pick_format(fmts: &Vec<Offer>) -> (r: Option<usize>)
    ensures
        is_pick(fmts@, r),
{
    let mut i: usize = 0;
    while i < fmts.len()
        invariant
            i <= fmts@.len(),
            forall|j: int| 0 <= j < i ==> !(#[trigger] fmts@[j]).native,
        decreases fmts@.len() - i,
    {
        if fmts[i].native {
            return Some(i);
        }
        i += 1;
    }
    let mut k: usize = 0;
    while k < fmts.len()
        invariant
            k <= fmts@.len(),
            forall|j: int| 0 <= j < fmts@.len() ==> !(#[trigger] fmts@[j]).native,
            forall|j: int| 0 <= j < k ==> !(#[trigger] fmts@[j]).software,
        decreases fmts@.len() - k,
    {
        if fmts[k].software {
            return Some(k);
        }
        k += 1;
    }
    None
}

// ---------------------------------------------------------------- what the decode side keeps to

/// A moment lies in its tick, and a tick's microsecond is the last that is not behind its start, as
/// long as 64 bits can say them.
pub proof fn ticks_and_microseconds_agree(offset: int, ticks: int, num: int, den: int)
    requires
        0 <= offset <= i64::MAX,
        0 <= ticks <= i64::MAX,
        0 < num,
        0 < den,
    ensures
        ticks_at(offset, num, den) < i64::MAX ==> {
            let t = ticks_at(offset, num, den);
            t * (num * 1_000_000) <= offset * den < (t + 1) * (num * 1_000_000)
        },
        micros_at(ticks, num, den) < i64::MAX ==> {
            let m = micros_at(ticks, num, den);
            m * den <= ticks * num * 1_000_000 < (m + 1) * den
        },
{
    let (x, d) = (offset * den, num * 1_000_000);
    assert(x >= 0) by (nonlinear_arith)
        requires
            x == offset * den,
            offset >= 0,
            den > 0,
    ;
    lemma_quotient(x, d);
    let y = ticks * num * 1_000_000;
    assert(y >= 0) by (nonlinear_arith)
        requires
            y == ticks * num * 1_000_000,
            ticks >= 0,
            num > 0,
    ;
    lemma_quotient(y, den);
}

proof fn lemma_quotient(x: int, d: int)
    requires
        x >= 0,
        d > 0,
    ensures
        0 <= x / d,
        (x / d) * d <= x < (x / d + 1) * d,
{
    let q = x / d;
    vstd::arithmetic::div_mod::lemma_fundamental_div_mod(x, d);
    vstd::arithmetic::div_mod::lemma_mod_bound(x, d);
    vstd::arithmetic::div_mod::lemma_div_pos_is_pos(x, d);
    assert(q * d <= x < (q + 1) * d) by (nonlinear_arith)
        requires
            x == d * q + x % d,
            0 <= x % d < d,
    ;
}

/// The active channel plays its file on as long as the schedule wants it and what is decoded is less
/// than a second ahead; it moves on as soon as another file is wanted, or when this one has ended
/// and all of it was shown.
pub proof fn a_file_plays_until_another_is_wanted(
    wanted: usize,
    file: usize,
    eof: bool,
    front: i64,
    offset: int,
)
    ensures
        wanted != file ==> rolls_over(wanted, file, eof, Some(front), offset) && rolls_over(
            wanted,
            file,
            eof,
            None,
            offset,
        ),
        front <= offset + 1_000_000 ==> !rolls_over(file, file, eof, Some(front), offset),
        front > offset + 1_000_000 ==> rolls_over(file, file, eof, Some(front), offset),
        rolls_over(file, file, true, None, offset),
        !rolls_over(file, file, false, None, offset),
{
}

/// A neighbour keeps what it has decoded while that is around the schedule's point: at most 1.5
/// seconds behind it and half a second ahead; at the end of a file it keeps it whatever it is.
pub proof fn a_neighbour_keeps_what_is_near(front: i64, offset: int)
    ensures
        offset - 1_500_000 <= front <= offset + 500_000 ==> !lost(Some(front), false, offset),
        front < offset - 1_500_000 || front > offset + 500_000 ==> lost(Some(front), false, offset),
        !lost(Some(front), true, offset),
        lost(None, true, offset) && lost(None, false, offset),
{
}

/// What is open already is not opened again, and the channel's own is taken before what was opened
/// ahead; only a file that neither is has to be opened.
pub proof fn what_is_open_is_used(slot: Option<usize>, next: Option<usize>, file: usize)
    ensures
        slot == Some(file) ==> source_of(slot, next, file) == Source::Slot,
        slot != Some(file) && next == Some(file) ==> source_of(slot, next, file) == Source::Next,
        slot != Some(file) && next != Some(file) ==> source_of(slot, next, file) == Source::Cold,
{
}

/// A command about the music changes nothing but that, and one to stop stops what was to be played;
/// a tune afterwards plays again.
pub proof fn commands_change_what_they_say(o: Order, m: bool, src: usize, gen: u64, guide: bool)
    ensures
        amended(o, Cmd::Music(m)).guide == m,
        amended(o, Cmd::Music(m)).src == o.src && amended(o, Cmd::Music(m)).gen == o.gen && amended(
            o,
            Cmd::Music(m),
        ).stop == o.stop,
        amended(o, Cmd::Stop).stop && amended(o, Cmd::Stop).src == o.src,
        !amended(amended(o, Cmd::Stop), Cmd::Tune { src, gen, guide }).stop,
        amended(amended(o, Cmd::Stop), Cmd::Tune { src, gen, guide }).src == src,
{
}

/// Neighbours are those that one step of the channel keys leads to, and being neighbours is mutual.
pub proof fn neighbours_are_one_step_away(ch: int, active: int, n: int)
    requires
        2 < n,
        0 <= ch < n,
        0 <= active < n,
    ensures
        is_hot(ch, active, n) <==> ch == (active + 1) % n || ch == (active - 1) % n,
        is_hot(ch, active, n) <==> is_hot(active, ch, n),
        !is_hot(active, active, n),
{
    vstd::arithmetic::div_mod::lemma_mod_add_multiples_vanish(active - 1, n);
    vstd::arithmetic::div_mod::lemma_mod_add_multiples_vanish(ch - 1, n);
    assert(active + n - 1 == n + (active - 1));
    assert(ch + n - 1 == n + (ch - 1));
    lemma_steps(active, n);
    lemma_steps(ch, n);
}

proof fn lemma_steps(x: int, n: int)
    requires
        2 < n,
        0 <= x < n,
    ensures
        (x + 1) % n == (if x + 1 == n {
            0
        } else {
            x + 1
        }),
        (x - 1) % n == (if x == 0 {
            n - 1
        } else {
            x - 1
        }),
{
    if x + 1 == n {
        vstd::arithmetic::div_mod::lemma_mod_self_0(n);
    } else {
        vstd::arithmetic::div_mod::lemma_small_mod((x + 1) as nat, n as nat);
    }
    if x == 0 {
        vstd::arithmetic::div_mod::lemma_mod_add_multiples_vanish(-1, n);
        vstd::arithmetic::div_mod::lemma_small_mod((n - 1) as nat, n as nat);
    } else {
        vstd::arithmetic::div_mod::lemma_small_mod((x - 1) as nat, n as nat);
    }
}

/// Reading goes on until both the pictures and the sound reach far enough; what reaches far enough
/// for a later moment does so for an earlier one.
pub proof fn reading_stops_when_both_reach(
    last: Option<i64>,
    sound: Option<SoundQueue>,
    near: int,
    far: int,
)
    requires
        near <= far,
        sound matches Some(q) ==> q.wf(),
    ensures
        !behind(last, sound, far) ==> !behind(last, sound, near),
        !behind(last, sound, far) ==> last is Some && last->0 >= far,
        !behind(last, sound, far) && sound is Some ==> sound->0.reaches(far),
        last is None ==> behind(last, sound, far),
        last is Some && last->0 >= far && sound is None ==> !behind(last, sound, far),
{
    if let Some(q) = sound {
        if let Some(b) = q.base {
            assert((near - b) * q.rate <= (far - b) * q.rate) by (nonlinear_arith)
                requires
                    near <= far,
                    q.rate >= 0,
            ;
        }
    }
}

/// A format that the presenter takes without a copy is picked before any other, the first of them;
/// without one it is the first in main memory; no other is picked.
pub proof fn the_native_format_is_picked_first(fmts: Seq<Offer>, r: Option<usize>, i: int)
    requires
        is_pick(fmts, r),
        0 <= i < fmts.len(),
    ensures
        fmts[i].native ==> (r matches Some(k) && k <= i && fmts[k as int].native),
        fmts[i].software ==> (r matches Some(k) && k < fmts.len() && (fmts[k as int].native || k
            <= i)),
        r matches Some(k) ==> k < fmts.len() && (fmts[k as int].native || fmts[k as int].software),
{
}

} // verus!
