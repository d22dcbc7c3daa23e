//! The sound: volume, snow noise, the queue of decoded sound and its clock, and hold music.
//!
//! Timestamps and offsets are microseconds into the file that plays.

use vstd::prelude::*;
use crate::order::{draw, draw_from, lcg, lcg_next};
use crate::tv::{Sound, VOL_MAX};

verus! {

/// How much sound is kept queued ahead of the schedule clock.
pub const AUDIO_LEAD: i64 = 100_000;

// ---------------------------------------------------------------- volume and noise

/// Linear gain in millionths for a volume (squared steps feel like a real TV's knob).
pub open spec fn gain_of(s: Sound) -> int {
    if s.muted {
        0
    } else {
        s.volume * s.volume * 1_000_000 / (VOL_MAX * VOL_MAX)
    }
}

/// Linear gain in millionths for the current volume/mute (squared steps feel like a real TV's
/// knob).
pub fn gain(s: &Sound) -> (r: u32)
    requires
        s.volume <= VOL_MAX,
    ensures
        r == gain_of(*s),
        r <= 1_000_000,
{
    if s.muted {
        return 0;
    }
    proof {
        assert(s.volume * s.volume <= 400) by (nonlinear_arith)
            requires
                0 <= s.volume <= 20,
        ;
    }
    s.volume * s.volume * 1_000_000 / 400
}

/// One step of the generator behind the noise.
pub open spec fn noise_step(x: u64) -> u64 {
    let a = x ^ (x << 13);
    let b = a ^ (a >> 7);
    b ^ (b << 17)
}

/// One step of the generator behind the noise.
pub fn noise_next(x: u64) -> (r: u64)
    ensures
        r == noise_step(x),
{
    let a = x ^ (x << 13);
    let b = a ^ (a >> 7);
    b ^ (b << 17)
}

/// The noise of a generator state, from -2^23 up to 2^23.
pub open spec fn noise_of(x: u64) -> int {
    x as int / 0x100_0000_0000 - 0x80_0000
}

/// The noise of a generator state, from -2^23 up to 2^23.
pub fn noise_level(x: u64) -> (r: i32)
    ensures
        r == noise_of(x),
        -0x80_0000 <= r < 0x80_0000,
{
    (x / 0x100_0000_0000) as i32 - 0x80_0000
}

/// The generator never runs dry: no state but zero leads to zero.
pub proof fn noise_never_dies(x: u64)
    requires
        x != 0,
    ensures
        noise_step(x) != 0,
{
    let a = x ^ (x << 13);
    let b = a ^ (a >> 7);
    assert(a != 0) by (bit_vector)
        requires
            x != 0,
            a == x ^ (x << 13),
    ;
    assert(b != 0) by (bit_vector)
        requires
            a != 0,
            b == a ^ (a >> 7),
    ;
    assert(b ^ (b << 17) != 0) by (bit_vector)
        requires
            b != 0,
    ;
}

// ---------------------------------------------------------------- the queue of decoded sound

/// Decoded, resampled sound that waits to be played: `len` sample frames at `rate` a second. The
/// first is `consumed` frames behind the timestamp `base`.
#[derive(Clone, Copy, PartialEq, Eq, Structural, Debug)]
pub struct SoundQueue {
    pub rate: u32,
    pub base: Option<i64>,
    pub consumed: u64,
    pub len: u64,
}

impl SoundQueue {
    pub open spec fn wf(self) -> bool {
        &&& 0 < self.rate
        &&& self.consumed + self.len <= u64::MAX
    }

    /// How many frames at the front are older than `t`.
    pub open spec fn frames_before(self, t: int) -> int {
        match self.base {
            Some(b) => {
                let n = (t - b) * self.rate / 1_000_000 - self.consumed;
                if n < 0 {
                    0
                } else if n > self.len {
                    self.len as int
                } else {
                    n
                }
            },
            None => 0,
        }
    }

    /// The queue without its first `n` frames.
    pub open spec fn without(self, n: int) -> SoundQueue {
        SoundQueue { consumed: (self.consumed + n) as u64, len: (self.len - n) as u64, ..self }
    }

    /// The queue reaches to `t`.
    pub open spec fn reaches(self, t: int) -> bool {
        self.base matches Some(b) && (self.consumed + self.len) * 1_000_000 >= (t - b) * self.rate
    }

    /// An empty queue.
    pub fn new(rate: u32) -> (r: SoundQueue)
        requires
            0 < rate,
        ensures
            r == (SoundQueue { rate, base: None, consumed: 0, len: 0 }),
            r.wf(),
    {
        SoundQueue { rate, base: None, consumed: 0, len: 0 }
    }

    /// Nothing is queued any more, and no timestamp is known: the file was sought.
    pub fn clear(&mut self)
        requires
            old(self).wf(),
        ensures
            *final(self) == (SoundQueue { base: None, consumed: 0, len: 0, ..*old(self) }),
            final(self).wf(),
    {
        self.base = None;
        self.consumed = 0;
        self.len = 0;
    }

    /// `n` more frames have come, the first with timestamp `pts`. Into an empty queue they bring
    /// their time with them.
    pub fn arrive(&mut self, pts: i64, n: u64)
        requires
            old(self).wf(),
            old(self).consumed + old(self).len + n <= u64::MAX,
        ensures
            *final(self) == (if old(self).len == 0 {
                SoundQueue { base: Some(pts), consumed: 0, len: n, ..*old(self) }
            } else {
                SoundQueue { len: (old(self).len + n) as u64, ..*old(self) }
            }),
            final(self).wf(),
    {
        if self.len == 0 {
            self.base = Some(pts);
            self.consumed = 0;
        }
        self.len = self.len + n;
    }

    fn count_before(&self, t: i128) -> (r: u64)
        requires
            self.wf(),
            i64::MIN <= t <= i64::MAX + AUDIO_LEAD,
        ensures
            r == self.frames_before(t as int),
            r <= self.len,
    {
        match self.base {
            Some(b) => {
                if t <= b as i128 {
                    proof {
                        lemma_not_before(*self, t as int, b as int);
                    }
                    return 0;
                }
                let d: u128 = (t - b as i128) as u128;
                proof {
                    assert(0 <= d * self.rate <= 0x2_0000_0000_0000_0000 * 0xffff_ffff)
                        by (nonlinear_arith)
                        requires
                            0 <= d <= 0x2_0000_0000_0000_0000,
                            0 <= self.rate <= 0xffff_ffff,
                    ;
                }
                let reached: u128 = d * self.rate as u128 / 1_000_000;
                if reached <= self.consumed as u128 {
                    0
                } else {
                    let n: u128 = reached - self.consumed as u128;
                    if n > self.len as u128 {
                        self.len
                    } else {
                        n as u64
                    }
                }
            },
            None => 0,
        }
    }

    /// Drop queued sound older than `offset` (e.g. between the keyframe and the schedule point);
    /// returns how many frames that are.
    pub fn trim(&mut self, offset: i64) -> (n: u64)
        requires
            old(self).wf(),
        ensures
            n == old(self).frames_before(offset as int),
            *final(self) == old(self).without(n as int),
            final(self).wf(),
    {
        let n = self.count_before(offset as i128);
        self.consumed = self.consumed + n;
        self.len = self.len - n;
        n
    }

    /// Whether the queue reaches `ahead` microseconds further than `t`.
    pub fn covers(&self, t: i64, ahead: u32) -> (r: bool)
        requires
            self.wf(),
        ensures
            r == self.reaches(t + ahead),
    {
        match self.base {
            Some(b) => {
                let d: i128 = t as i128 + ahead as i128 - b as i128;
                proof {
                    assert(-0x2_0000_0000_0000_0000 * 0xffff_ffff <= d * self.rate
                        <= 0x2_0000_0000_0000_0000 * 0xffff_ffff) by (nonlinear_arith)
                        requires
                            -0x2_0000_0000_0000_0000 <= d <= 0x2_0000_0000_0000_0000,
                            0 <= self.rate <= 0xffff_ffff,
                    ;
                }
                (self.consumed as i128 + self.len as i128) * 1_000_000 >= d * self.rate as i128
            },
            None => false,
        }
    }
}

proof fn lemma_not_before(q: SoundQueue, t: int, b: int)
    requires
        q.wf(),
        q.base matches Some(x) && x == b,
        t <= b,
    ensures
        q.frames_before(t) == 0,
{
    let x = (t - b) * q.rate;
    assert(x <= 0) by (nonlinear_arith)
        requires
            x == (t - b) * q.rate,
            t <= b,
            0 <= q.rate,
    ;
    assert(x / 1_000_000 <= 0);
}

/// Once trimmed to a moment, nothing older than it is queued.
pub proof fn trimming_leaves_nothing_older(q: SoundQueue, t: int)
    requires
        q.wf(),
    ensures
        q.without(q.frames_before(t)).frames_before(t) == 0,
{
}

/// What is to be done with the queue and the device's ring.
#[derive(Clone, Copy, PartialEq, Eq, Structural, Debug)]
pub struct Feed {
    /// So many frames at the front of the queue are too old.
    pub trim: u64,
    /// So many of the next are moved into the ring.
    pub push: u64,
    /// Then so many samples at the front of the ring are dropped.
    pub drop: usize,
}

/// How many samples of a ring of `len` are dropped: the device's clock has drifted when more than
/// half a second waits there, and a quarter is kept.
pub open spec fn resync(len: int, per_sec: int) -> int {
    if len > per_sec / 2 {
        len - per_sec / 4
    } else {
        0
    }
}

impl SoundQueue {
    /// What feeding the ring at `offset` does, `ring` samples being in it and a frame having
    /// `channels` samples.
    pub open spec fn feeds(self, offset: int, ring: int, channels: int) -> Feed {
        let a = self.frames_before(offset);
        let b = self.without(a).frames_before(offset + AUDIO_LEAD);
        if self.base is None {
            Feed { trim: 0, push: 0, drop: 0 }
        } else {
            Feed {
                trim: a as u64,
                push: b as u64,
                drop: resync(ring + b * channels, self.rate * channels) as usize,
            }
        }
    }

    /// Move sound from the queue into the device ring, keeping it AUDIO_LEAD ahead of `offset`.
    pub fn feed(&mut self, offset: i64, ring: usize, channels: u32) -> (r: Feed)
        requires
            old(self).wf(),
            0 < channels,
            ring + old(self).len * channels <= usize::MAX,
        ensures
            r == old(self).feeds(offset as int, ring as int, channels as int),
            *final(self) == old(self).without(r.trim + r.push),
            final(self).wf(),
    {
        if self.base.is_none() {
            return Feed { trim: 0, push: 0, drop: 0 };
        }
        let ghost start = *self;
        let a = self.trim(offset);
        let ghost mid = *self;
        let b = self.count_before(offset as i128 + AUDIO_LEAD as i128);
        self.consumed = self.consumed + b;
        self.len = self.len - b;
        proof {
            assert(0 <= b * channels <= start.len * channels) by (nonlinear_arith)
                requires
                    0 <= b <= start.len,
                    0 <= channels,
            ;
            assert(0 <= start.rate * channels <= 0xffff_ffff * 0xffff_ffff) by (nonlinear_arith)
                requires
                    0 <= start.rate <= 0xffff_ffff,
                    0 <= channels <= 0xffff_ffff,
            ;
        }
        let pushed: usize = (b as u128 * channels as u128) as usize;
        let len: usize = ring + pushed;
        let per_sec: u64 = self.rate as u64 * channels as u64;
        let drop: usize = if len as u64 > per_sec / 2 {
            (len as u64 - per_sec / 4) as usize
        } else {
            0
        };
        Feed { trim: a, push: b, drop }
    }
}

/// The ring is never fed further than the lead ahead of the schedule: what would come next is
/// later, or there is nothing.
pub proof fn feeding_keeps_the_lead(q: SoundQueue, offset: int, ring: int, channels: int)
    requires
        q.wf(),
        q.base is Some,
    ensures
        ({
            let f = q.feeds(offset, ring, channels);
            q.without(f.trim + f.push).frames_before(offset + AUDIO_LEAD) == 0
        }),
{
    let a = q.frames_before(offset);
    let mid = q.without(a);
    let b = mid.frames_before(offset + AUDIO_LEAD);
    trimming_leaves_nothing_older(mid, offset + AUDIO_LEAD);
    assert(q.without(a + b) == mid.without(b));
}

// ---------------------------------------------------------------- hold music

/// Keep about 150 ms of music queued; at most 200 packets are read for it at a time.
pub fn wants_music(queued: usize, per_sec: usize, read: u32) -> (r: bool)
    ensures
        r == (queued < per_sec * 15 / 100 && read < 200),
{
    (queued as u128) < per_sec as u128 * 15 / 100 && read < 200
}

/// The generator of the track picker, seeded from the clock (in milliseconds) so the guide doesn't
/// open on the same track every launch.
pub fn music_seed(ms: u64) -> (r: u64)
    ensures
        r == ms ^ 0x00C0_FFEE_1234_5678,
{
    ms ^ 0x00C0_FFEE_1234_5678
}

/// The next random track of `count`: its number and the state of the generator.
pub fn pick_track(rng: u64, count: usize) -> (r: (usize, u64))
    requires
        count > 0,
    ensures
        r.1 == lcg(rng),
        r.0 == draw(r.1) as int % count as int,
        r.0 < count,
{
    let x = lcg_next(rng);
    ((draw_from(x) % count as u64) as usize, x)
}

/// Where a track of length `dur` is dropped into: somewhere in the first 70 %.
pub open spec fn drop_in(x: u64, dur: int) -> int {
    let span = dur * 7 / 10;
    x as int / 0x800 % (if span < 1 {
        1
    } else {
        span
    })
}

/// Drop in partway through, like tuning into a station: somewhere in the first 70 %. Returns the
/// point and the state of the generator.
pub fn drop_point(rng: u64, dur: i64) -> (r: (i64, u64))
    requires
        dur > 0,
    ensures
        r.1 == lcg(rng),
        r.0 == drop_in(r.1, dur as int),
        0 <= r.0 < dur,
        r.0 == 0 || r.0 < dur * 7 / 10,
{
    let x = lcg_next(rng);
    let span: u128 = dur as u128 * 7 / 10;
    let n: u128 = if span < 1 { 1 } else { span };
    let at: u128 = (x / 0x800) as u128 % n;
    (at as i64, x)
}

/// How often an unreadable track is replaced by another.
pub const MUSIC_TRIES: u32 = 5;

// ---------------------------------------------------------------- what is heard

/// The gain goes with the square of the volume: nothing at 0 or muted, all of it at the top, and a
/// quarter of it at half the volume.
pub proof fn the_gain_is_the_square(s: Sound, louder: Sound)
    requires
        !s.muted,
        !louder.muted,
        s.volume <= louder.volume <= VOL_MAX,
    ensures
        gain_of(s) * 400 == s.volume * s.volume * 1_000_000,
        gain_of(s) <= gain_of(louder) <= 1_000_000,
        s.volume < louder.volume ==> gain_of(s) < gain_of(louder),
        s.volume == 20 ==> gain_of(s) == 1_000_000,
        s.volume == 0 ==> gain_of(s) == 0,
        gain_of(Sound { muted: true, ..s }) == 0,
{
    let (v, u) = (s.volume as int, louder.volume as int);
    assert(0 <= v * v <= u * u <= 400 && (v < u ==> v * v < u * u)) by (nonlinear_arith)
        requires
            0 <= v <= u <= 20,
    ;
    assert(v == 0 ==> v * v == 0) by (nonlinear_arith);
    assert(v * v * 1_000_000 / 400 == v * v * 2_500);
    assert(u * u * 1_000_000 / 400 == u * u * 2_500);
}

/// Frame `k` of the queue is `consumed + k` frames behind the timestamp of the first that came. As
/// old as a moment are those whose end lies before it, and no others: of the frames that count as
/// before it the last one does, and the next one does not.
pub proof fn old_frames_end_before_the_moment(q: SoundQueue, t: int)
    requires
        q.wf(),
        q.base is Some,
    ensures
        ({
            let n = q.frames_before(t);
            let span = (t - q.base->0) * q.rate;
            &&& 0 <= n <= q.len
            &&& n > 0 ==> (q.consumed + n) * 1_000_000 <= span
            &&& n < q.len ==> (q.consumed + n + 1) * 1_000_000 > span
        }),
{
    let span = (t - q.base->0) * q.rate;
    vstd::arithmetic::div_mod::lemma_fundamental_div_mod(span, 1_000_000);
    vstd::arithmetic::div_mod::lemma_mod_bound(span, 1_000_000);
}

/// What is fed: the frames that are too old go, the next ones up to the lead of a tenth of a second
/// are moved into the ring, and the rest waits. A queue without a timestamp is left alone.
pub proof fn the_ring_gets_what_is_due(q: SoundQueue, offset: int, ring: int, channels: int)
    requires
        q.wf(),
    ensures
        ({
            let f = q.feeds(offset, ring, channels);
            &&& q.base is None ==> f.trim == 0 && f.push == 0 && f.drop == 0
            &&& q.base is Some ==> f.trim == q.frames_before(offset) && f.trim + f.push
                == q.frames_before(offset + 100_000)
        }),
{
    if let Some(b) = q.base {
        let a = q.frames_before(offset);
        let (x, y) = ((offset - b) * q.rate, (offset + 100_000 - b) * q.rate);
        assert(x <= y) by (nonlinear_arith)
            requires
                x == (offset - b) * q.rate,
                y == (offset + 100_000 - b) * q.rate,
                q.rate >= 0,
        ;
        vstd::arithmetic::div_mod::lemma_div_is_ordered(x, y, 1_000_000);
        assert(q.without(a).consumed == q.consumed + a);
        assert(q.without(a).len == q.len - a);
    }
}

/// More than half a second in the ring means that the clocks have drifted: then a quarter of a second
/// is kept. Less is left alone.
pub proof fn drift_leaves_a_quarter_of_a_second(len: int, per_sec: int)
    requires
        0 <= len,
        0 <= per_sec,
    ensures
        len <= per_sec / 2 ==> resync(len, per_sec) == 0,
        len > per_sec / 2 ==> len - resync(len, per_sec) == per_sec / 4,
        0 <= resync(len, per_sec) <= len,
{
}

/// The noise swings as far to either side: no state of the generator is louder than 2^23, and the one
/// with all bits the other way round is as loud on the other side.
pub proof fn the_noise_swings_about_nothing(x: u64, y: u64)
    requires
        x + y == u64::MAX,
    ensures
        -0x80_0000 <= noise_of(x) <= 0x7f_ffff,
        noise_of(x) + noise_of(y) == -1,
        x <= y ==> noise_of(x) <= noise_of(y),
{
}

/// A queue reaches to a moment exactly where not all of its frames end before it: one that does not
/// has nothing but older frames, one with a frame that is not older does, and what reaches to a
/// moment reaches to all that are earlier. A queue without a timestamp reaches nowhere.
pub proof fn a_queue_reaches_as_far_as_its_frames(q: SoundQueue, t: int, earlier: int)
    requires
        q.wf(),
        earlier <= t,
    ensures
        q.base is None ==> !q.reaches(t),
        q.base is Some && !q.reaches(t) ==> q.frames_before(t) == q.len,
        q.base is Some && q.frames_before(t) < q.len ==> q.reaches(t),
        q.base is Some && q.reaches(t) && q.frames_before(t) == q.len && q.len > 0 ==> (q.consumed
            + q.len) * 1_000_000 == (t - q.base->0) * q.rate,
        q.reaches(t) ==> q.reaches(earlier),
{
    if let Some(b) = q.base {
        let span = (t - b) * q.rate;
        vstd::arithmetic::div_mod::lemma_fundamental_div_mod(span, 1_000_000);
        vstd::arithmetic::div_mod::lemma_mod_bound(span, 1_000_000);
        assert((earlier - b) * q.rate <= (t - b) * q.rate) by (nonlinear_arith)
            requires
                earlier <= t,
                q.rate >= 0,
        ;
    }
}

} // verus!
