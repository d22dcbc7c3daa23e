//! Pacing: which decoded frame is shown when, and what keeps the screen alive in between.
//!
//! Moments are microseconds since the program started; timestamps and offsets are microseconds
//! into the file that plays.

use vstd::prelude::*;
use crate::station::Station;
use crate::tv::{moment, moments_past, Sound, Tv, TvView, HOUR, LATEST};

verus! {

/// The time in which snow fades out once the new channel has a frame.
pub const STATIC_FADE: i64 = 100_000;

/// Horizontal-hold wobble after the snow clears.
pub const SETTLE: i64 = 450_000;

/// Tube warm-up on launch.
pub const POWER_ON: i64 = 1_100_000;

/// Raster collapse on power off.
pub const POWER_OFF: i64 = 450_000;

// ---------------------------------------------------------------- snow, tube and settling

/// Snow opacity 0..=255. Full until `ready_at`, then linear fade to 0.
pub open spec fn snow_level(now: int, ready_at: int) -> int {
    if now < ready_at {
        255
    } else if now - ready_at >= STATIC_FADE {
        0
    } else {
        255 * (STATIC_FADE - (now - ready_at)) / (STATIC_FADE as int)
    }
}

/// Snow opacity 0..=255. Full until `ready_at`, then linear fade to 0.
pub fn static_alpha(now: i64, ready_at: i64) -> (r: u32)
    requires
        moment(now),
        -HOUR <= ready_at <= LATEST + 24 * HOUR,
    ensures
        r == snow_level(now as int, ready_at as int),
        r <= 255,
{
    if now < ready_at {
        return 255;
    }
    let t: i64 = now - ready_at;
    if t >= STATIC_FADE {
        0
    } else {
        (255 * (STATIC_FADE - t) / STATIC_FADE) as u32
    }
}

/// Snow never grows while a channel is shown.
pub proof fn snow_only_fades(now: int, later: int, ready_at: int)
    requires
        now <= later,
    ensures
        0 <= snow_level(later, ready_at) <= snow_level(now, ready_at) <= 255,
{
}

/// Snow goes up at once on a tune and holds until the new channel has a frame (an hour at most); on
/// the weather channel it holds until the page is due.
pub proof fn snow_holds_until_a_frame(t: TvView, st: Station, ch: usize, now: i64, later: int)
    requires
        moment(now),
        now <= later,
    ensures
        !t.no_video(st, ch) && later < now + HOUR ==> snow_level(
            later,
            t.tuned(st, ch, now).ready_at as int,
        ) == 255,
        st.weather == Some(ch) && later < now + 650_000 ==> snow_level(
            later,
            t.tuned(st, ch, now).ready_at as int,
        ) == 255,
{
}

/// The tube's brightness in millionths: it warms up on launch, and collapses on power off.
pub open spec fn tube_power(now: int, off: Option<i64>) -> int {
    match off {
        Some(t) => if now - t >= POWER_OFF {
            0
        } else {
            1_000_000 - (now - t) * 1_000_000 / (POWER_OFF as int)
        },
        None => if now >= POWER_ON {
            1_000_000
        } else {
            now * 1_000_000 / (POWER_ON as int)
        },
    }
}

/// Lock-in wobble in millionths on the first frames of a new channel.
pub open spec fn wobble(now: int, ready_at: int) -> int {
    if now < ready_at || now - ready_at >= SETTLE {
        0
    } else {
        1_000_000 - (now - ready_at) * 1_000_000 / (SETTLE as int)
    }
}

/// What the picture is shown with.
#[derive(Clone, Copy, PartialEq, Eq, Structural, Debug)]
pub struct Fx {
    /// 0..=255
    pub snow: u32,
    /// The whole screen snows, not just the picture's box.
    pub snow_full: bool,
    /// Millionths.
    pub power: u32,
    /// Millionths.
    pub settle: u32,
    /// The weather page is in view.
    pub page: bool,
}

impl TvView {
    /// Snow off = a digital box: black between channels. The guide's ad box always snows.
    pub open spec fn picture_snow(self, now: int) -> int {
        if self.settings.snow || self.cur == 0 {
            snow_level(now, self.ready_at as int)
        } else {
            0
        }
    }

    /// The noise in the sound matches the picture; in the guide the music plays on.
    pub open spec fn with_noise(self, now: int) -> TvView {
        match self.audio {
            Some(a) => TvView {
                audio: Some(
                    Sound {
                        snow: if self.cur == 0 && !self.guide_snow_full {
                            0
                        } else {
                            self.picture_snow(now) as u32
                        },
                        ..a
                    },
                ),
                ..self
            },
            None => self,
        }
    }

    pub open spec fn fx(self, st: Station, now: int) -> Fx {
        Fx {
            snow: self.picture_snow(now) as u32,
            snow_full: self.cur != 0 || self.guide_snow_full,
            power: tube_power(now, self.power_off) as u32,
            settle: if self.cur == 0 {
                0
            } else {
                wobble(now, self.ready_at as int) as u32
            },
            page: st.weather == Some(self.cur) && self.picture_snow(now) == 0 && self.menu is None
                && !self.help && self.power_off is None,
        }
    }
}

impl Tv {
    /// A frame is composed now: what it is shown with. The noise in the sound follows.
    pub fn compose(&mut self, st: &Station, now: i64) -> (r: Fx)
        requires
            old(self)@.wf(st.count()),
            moment(now),
            old(self).power_off matches Some(t) ==> t <= now,
        ensures
            final(self)@ == old(self)@.with_noise(now as int),
            final(self)@.wf(st.count()),
            r == old(self)@.fx(*st, now as int),
    {
        let guide = self.cur == 0;
        let a: u32 = if self.settings.snow || guide { static_alpha(now, self.ready_at) } else { 0 };
        if let Some(s) = self.audio {
            self.audio = Some(Sound { snow: if guide && !self.guide_snow_full { 0 } else { a }, ..s });
        }
        let power: u32 = match self.power_off {
            Some(t) => if now - t >= POWER_OFF {
                0
            } else {
                (1_000_000 - (now - t) * 1_000_000 / POWER_OFF) as u32
            },
            None => if now >= POWER_ON { 1_000_000 } else { (now * 1_000_000 / POWER_ON) as u32 },
        };
        let settle: u32 = if guide || now < self.ready_at || now - self.ready_at >= SETTLE {
            0
        } else {
            (1_000_000 - (now - self.ready_at) * 1_000_000 / SETTLE) as u32
        };
        let page = st.is_weather(self.cur) && a == 0 && self.menu.is_none() && !self.help
            && self.power_off.is_none();
        Fx { snow: a, snow_full: !guide || self.guide_snow_full, power, settle, page }
    }
}

// ---------------------------------------------------------------- repaint periods

impl TvView {
    pub open spec fn is_muted(self) -> bool {
        self.audio matches Some(a) && a.muted
    }

    /// Repaint period needed while something time-based is drawing without new video: fast for
    /// the tube warm-up/collapse and lock-in wobble, slow for OSD timeouts and the MUTE blink.
    pub open spec fn repaint_period(self, now: int) -> Option<int> {
        if self.power_off is Some || now < POWER_ON || (now >= self.ready_at && now - self.ready_at
            < SETTLE) {
            Some(8_000)
        } else if now < self.vol_until + 50_000 || now < self.osd_until + 50_000
            || self.is_muted() {
            Some(50_000)
        } else {
            None
        }
    }
}

impl Tv {
    /// Repaint period needed while something time-based is drawing without new video.
    pub fn fx_period(&self, now: i64) -> (r: Option<i64>)
        requires
            moments_past(self@),
            moment(now),
        ensures
            match r {
                Some(p) => self@.repaint_period(now as int) == Some(p as int),
                None => self@.repaint_period(now as int) is None,
            },
    {
        let muted = match self.audio {
            Some(a) => a.muted,
            None => false,
        };
        if self.power_off.is_some() || now < POWER_ON || (now >= self.ready_at && now
            - self.ready_at < SETTLE) {
            Some(8_000)
        } else if now < self.vol_until + 50_000 || now < self.osd_until + 50_000 || muted {
            Some(50_000)
        } else {
            None
        }
    }
}

// ---------------------------------------------------------------- frames

/// A frame later than this is dropped where there is another.
pub const LATE: i64 = 40_000;

/// How many frames at the front are more than 40 ms late; one is always kept, so something is
/// always on screen.
pub open spec fn late(pts: Seq<i64>, offset: int) -> int
    decreases pts.len(),
{
    if pts.len() > 1 && pts[0] - offset < -LATE {
        1 + late(pts.drop_first(), offset)
    } else {
        0
    }
}

/// How many frames at the front are far in the future: they are from a previous file; never wait
/// on them.
pub open spec fn stray(pts: Seq<i64>, offset: int) -> int
    decreases pts.len(),
{
    if pts.len() > 0 && pts[0] - offset > 1_500_000 {
        1 + stray(pts.drop_first(), offset)
    } else {
        0
    }
}

/// How many frames at the front are dropped.
pub open spec fn dropped(pts: Seq<i64>, offset: int) -> int {
    late(pts, offset) + stray(pts.skip(late(pts, offset)), offset)
}

proof fn lemma_late(pts: Seq<i64>, offset: int)
    ensures
        0 <= late(pts, offset),
        pts.len() > 0 ==> late(pts, offset) < pts.len(),
        pts.len() == 0 ==> late(pts, offset) == 0,
        forall|i: int| 0 <= i < late(pts, offset) ==> #[trigger] pts[i] - offset < -LATE,
    decreases pts.len(),
{
    if pts.len() > 1 && pts[0] - offset < -LATE {
        let t = pts.drop_first();
        lemma_late(t, offset);
        assert forall|i: int| 0 <= i < late(pts, offset) implies #[trigger] pts[i] - offset
            < -LATE by {
            if i > 0 {
                assert(t[i - 1] == pts[i]);
            }
        }
    }
}

proof fn lemma_stray(pts: Seq<i64>, offset: int)
    ensures
        0 <= stray(pts, offset) <= pts.len(),
        stray(pts, offset) < pts.len() ==> pts[stray(pts, offset)] - offset <= 1_500_000,
    decreases pts.len(),
{
    if pts.len() > 0 && pts[0] - offset > 1_500_000 {
        let t = pts.drop_first();
        lemma_stray(t, offset);
        let n = stray(t, offset);
        if n < t.len() {
            assert(t[n] == pts[n + 1]);
        }
    }
}

/// The number of frames to drop at the front.
pub fn count_dropped(pts: &Vec<i64>, offset: i64) -> (r: usize)
    ensures
        r == dropped(pts@, offset as int),
        r <= pts@.len(),
{
    let n: usize = pts.len();
    let mut i: usize = 0;
    assert(pts@.skip(0) =~= pts@);
    while i + 1 < n && (pts[i] as i128) - (offset as i128) < -(LATE as i128)
        invariant
            i <= n == pts@.len(),
            n > 0 ==> i < n,
            late(pts@, offset as int) == i + late(pts@.skip(i as int), offset as int),
        decreases n - i,
    {
        assert(pts@.skip(i as int).drop_first() =~= pts@.skip(i + 1));
        i += 1;
    }
    let ghost first = i;
    assert(late(pts@.skip(i as int), offset as int) == 0);
    assert(first == late(pts@, offset as int));
    let ghost rest = pts@.skip(first as int);
    assert(rest.skip(0) =~= rest);
    while i < n && (pts[i] as i128) - (offset as i128) > 1_500_000
        invariant
            first <= i <= n == pts@.len(),
            rest == pts@.skip(first as int),
            stray(rest, offset as int) == (i - first) + stray(
                rest.skip(i - first),
                offset as int,
            ),
        decreases n - i,
    {
        assert(rest.skip(i - first).drop_first() =~= rest.skip(i - first + 1));
        i += 1;
    }
    i
}

/// A frame that is shown is never one from a previous file, and what is dropped as late is late.
pub proof fn shown_frames_are_near(pts: Seq<i64>, offset: int)
    ensures
        0 <= dropped(pts, offset) <= pts.len(),
        dropped(pts, offset) < pts.len() ==> pts[dropped(pts, offset)] - offset <= 1_500_000,
        forall|i: int| 0 <= i < late(pts, offset) ==> #[trigger] pts[i] - offset < -LATE,
{
    lemma_late(pts, offset);
    let a = late(pts, offset);
    let rest = pts.skip(a);
    lemma_stray(rest, offset);
    let n = stray(rest, offset);
    if n < rest.len() {
        assert(rest[n] == pts[a + n]);
    }
}

/// What is to be done at a tick.
#[derive(Clone, Copy, PartialEq, Eq, Structural, Debug)]
pub struct Tick {
    /// So many queued frames are dropped.
    pub drop: usize,
    /// Then the next one is shown.
    pub show: bool,
    /// It is the first of its channel.
    pub first: bool,
    /// The power-off has played out.
    pub exit: bool,
    /// The last frame is drawn again.
    pub repaint: bool,
    /// The time until the next tick.
    pub wake: i64,
}

impl TvView {
    /// The frame behind the dropped ones is due, or the first of its channel.
    pub open spec fn shows(self, pts: Seq<i64>, offset: int) -> bool {
        let d = dropped(pts, offset);
        d < pts.len() && (pts[d] - offset <= 2_000 || self.presented_gen != self.gen)
    }

    /// The wait for the next frame.
    pub open spec fn frame_wait(self, pts: Seq<i64>, offset: int) -> int {
        let d = dropped(pts, offset);
        if d >= pts.len() {
            20_000
        } else if self.shows(pts, offset) {
            1_000
        } else if pts[d] - offset < 20_000 {
            pts[d] - offset
        } else {
            20_000
        }
    }

    pub open spec fn powered_off(self, now: int) -> bool {
        self.power_off matches Some(t) && now - t >= POWER_OFF + 150_000
    }

    /// Snow, the guide and the analog effects animate on their own clock, not only when video
    /// frames arrive: the period at which they do.
    pub open spec fn alive_period(self, now: int) -> Option<int> {
        let snowing = snow_level(now, self.ready_at as int) > 0;
        let fx = self.repaint_period(now);
        if snowing || fx is Some || self.cur == 0 {
            let p = if snowing {
                8_000
            } else {
                33_000int
            };
            Some(
                match fx {
                    Some(q) => if q < p {
                        q
                    } else {
                        p
                    },
                    None => p,
                },
            )
        } else {
            None
        }
    }

    /// What a tick at `now` does, `since_paint` after the last frame was composed.
    pub open spec fn ticks(self, pts: Seq<i64>, offset: int, now: int, since_paint: int) -> Tick {
        let show = self.shows(pts, offset);
        let exit = self.powered_off(now);
        let wait = self.frame_wait(pts, offset);
        let period = if show || exit {
            None
        } else {
            self.alive_period(now)
        };
        Tick {
            drop: dropped(pts, offset) as usize,
            show,
            first: self.presented_gen != self.gen,
            exit,
            repaint: period matches Some(p) && since_paint >= p,
            wake: (match period {
                Some(p) => if p < wait {
                    p
                } else {
                    wait
                },
                None => wait,
            }) as i64,
        }
    }

    /// The set once the first frame of its channel is on screen.
    pub open spec fn ticked(self, pts: Seq<i64>, offset: int, now: i64) -> TvView {
        if self.shows(pts, offset) && self.presented_gen != self.gen {
            TvView { ready_at: now, presented_gen: self.gen, ..self }
        } else {
            self
        }
    }
}

impl Tv {
    fn alive(&self, now: i64) -> (r: Option<i64>)
        requires
            moments_past(self@),
            moment(now),
        ensures
            match r {
                Some(p) => self@.alive_period(now as int) == Some(p as int),
                None => self@.alive_period(now as int) is None,
            },
    {
        let snowing = static_alpha(now, self.ready_at) > 0;
        let fx = self.fx_period(now);
        if snowing || fx.is_some() || self.cur == 0 {
            let p: i64 = if snowing { 8_000 } else { 33_000 };
            match fx {
                Some(q) => Some(if q < p { q } else { p }),
                None => Some(p),
            }
        } else {
            None
        }
    }

    /// UI tick: of the queued frames with these timestamps, present the one that is due.
    pub fn tick(
        &mut self,
        st: &Station,
        pts: &Vec<i64>,
        offset: i64,
        now: i64,
        since_paint: i64,
    ) -> (r: Tick)
        requires
            old(self)@.wf(st.count()),
            moment(now),
        ensures
            r == old(self)@.ticks(pts@, offset as int, now as int, since_paint as int),
            final(self)@ == old(self)@.ticked(pts@, offset as int, now),
            final(self)@.wf(st.count()),
    {
        let d = count_dropped(pts, offset);
        let first = self.presented_gen != self.gen;
        let due: i128 = if d < pts.len() { pts[d] as i128 - offset as i128 } else { 0 };
        let show = d < pts.len() && (due <= 2_000 || first);
        let wait: i64 = if d >= pts.len() {
            20_000
        } else if show {
            1_000
        } else if due < 20_000 {
            due as i64
        } else {
            20_000
        };
        let exit = match self.power_off {
            Some(t) => now - t >= POWER_OFF + 150_000,
            None => false,
        };
        let period = if show || exit { None } else { self.alive(now) };
        let (repaint, wake) = match period {
            Some(p) => (since_paint >= p, if p < wait { p } else { wait }),
            None => (false, wait),
        };
        if show && first {
            self.ready_at = now;  // snow starts fading from here
            self.presented_gen = self.gen;
        }
        Tick { drop: d, show, first, exit, repaint, wake }
    }
}

// ---------------------------------------------------------------- messages from the decode side

impl TvView {
    /// A message is of the tune that is on; those of an earlier one are dropped.
    pub open spec fn is_current(self, gen: u64) -> bool {
        gen == self.gen
    }
}

impl Tv {
    /// Whether a message tagged `gen` still counts.
    pub fn current(&self, gen: u64) -> (r: bool)
        ensures
            r == self@.is_current(gen),
    {
        gen == self.gen
    }

    /// The channel whose pictures are shown: on the guide, the one in its ad box.
    pub fn source(&self) -> (r: usize)
        ensures
            r == self@.source(),
    {
        if self.cur == 0 {
            self.preview
        } else {
            self.cur
        }
    }
}

/// After a tune no frame of an earlier one counts.
pub proof fn stale_frames_do_not_count(
    t: TvView,
    st: crate::station::Station,
    ch: usize,
    now: i64,
    gen: u64,
)
    requires
        t.gen < u64::MAX,
        gen <= t.gen,
    ensures
        !t.tuned(st, ch, now).is_current(gen),
{
    crate::idle::every_tune_is_a_new_generation(t, st, ch, now);
}

// ---------------------------------------------------------------- how the picture comes and goes

/// Snow is full until the channel is ready and gone a tenth of a second later; between the two it is
/// as strong as the part of that time which is left.
pub proof fn snow_fades_in_a_tenth_of_a_second(now: int, ready_at: int)
    ensures
        now <= ready_at ==> snow_level(now, ready_at) == 255,
        now >= ready_at + 100_000 ==> snow_level(now, ready_at) == 0,
        ready_at <= now < ready_at + 100_000 ==> {
            let left = ready_at + 100_000 - now;
            &&& snow_level(now, ready_at) * 100_000 <= 255 * left
            &&& 255 * left < (snow_level(now, ready_at) + 1) * 100_000
        },
{
}

/// The tube warms up for 1.1 seconds after the start and from then on is at full power; switched off
/// it collapses within 0.45 seconds. It does neither back and forth.
pub proof fn the_tube_warms_up_and_collapses(now: int, later: int, off: i64)
    requires
        0 <= now <= later,
    ensures
        tube_power(0, None) == 0,
        now >= 1_100_000 ==> tube_power(now, None) == 1_000_000,
        tube_power(now, None) <= tube_power(later, None) <= 1_000_000,
        now < 1_100_000 ==> tube_power(now, None) < 1_000_000,
        tube_power(off as int, Some(off)) == 1_000_000,
        now >= off + 450_000 ==> tube_power(now, Some(off)) == 0,
        off <= now ==> tube_power(later, Some(off)) <= tube_power(now, Some(off)),
        off <= now < off + 450_000 ==> tube_power(now, Some(off)) > 0,
{
}

/// The picture of a new channel wobbles for 0.45 seconds from its first frame on, less and less; not
/// before it and not on the guide.
pub proof fn the_picture_settles(t: TvView, st: Station, now: int, later: int)
    requires
        now <= later,
    ensures
        wobble(t.ready_at as int, t.ready_at as int) == 1_000_000,
        now < t.ready_at || now >= t.ready_at + 450_000 ==> wobble(now, t.ready_at as int) == 0,
        t.ready_at <= now ==> 0 <= wobble(later, t.ready_at as int) <= wobble(
            now,
            t.ready_at as int,
        ) <= 1_000_000,
        t.ready_at <= now < t.ready_at + 450_000 ==> wobble(now, t.ready_at as int) > 0,
        t.cur == 0 ==> t.fx(st, now).settle == 0,
        t.cur != 0 ==> t.fx(st, now).settle == wobble(now, t.ready_at as int),
{
}

/// With snow switched off a channel is never snow, though the guide's box is; and what is heard is
/// what is seen: as much noise as snow, but in the guide the music plays on, unless the whole screen
/// snows.
pub proof fn noise_matches_the_snow(t: TvView, st: Station, now: int)
    ensures
        !t.settings.snow && t.cur != 0 ==> t.fx(st, now).snow == 0,
        t.settings.snow || t.cur == 0 ==> t.fx(st, now).snow == snow_level(now, t.ready_at as int),
        t.audio is None ==> t.with_noise(now) == t,
        t.audio is Some ==> t.with_noise(now).audio is Some && t.with_noise(now).audio->0.volume
            == t.audio->0.volume && t.with_noise(now).audio->0.muted == t.audio->0.muted,
        t.audio is Some && t.cur != 0 ==> t.with_noise(now).audio->0.snow == t.fx(st, now).snow,
        t.audio is Some && t.cur == 0 && !t.guide_snow_full ==> t.with_noise(now).audio->0.snow == 0,
        t.audio is Some && t.cur == 0 && t.guide_snow_full ==> t.with_noise(now).audio->0.snow
            == t.fx(st, now).snow,
        t.cur != 0 ==> t.fx(st, now).snow_full,
        t.cur == 0 ==> t.fx(st, now).snow_full == t.guide_snow_full,
{
    snow_only_fades(now, now, t.ready_at as int);
}

/// The weather page is in view on its channel alone, once no snow is left, and with nothing over it:
/// no menu, no legend, and not while the set goes off.
pub proof fn the_page_is_in_view_alone(t: TvView, st: Station, now: int)
    ensures
        t.fx(st, now).page ==> st.weather == Some(t.cur) && t.menu is None && !t.help
            && t.power_off is None && t.fx(st, now).snow == 0,
        st.weather == Some(t.cur) && t.menu is None && !t.help && t.power_off is None && now
            >= t.ready_at + 100_000 ==> t.fx(st, now).page,
{
    snow_only_fades(now, now, t.ready_at as int);
}

/// What shows only for a time is drawn again soon after that time is over: while a number, a banner
/// or the volume shows, or the sound is muted, every 0.05 seconds at least; while the tube or the
/// picture moves, every 0.008.
pub proof fn what_passes_is_drawn_again(t: TvView, st: Station, now: int, w: int, h: int)
    requires
        0 <= now,
    ensures
        ({
            let l = t.layers(st, now, w, h);
            let p = t.repaint_period(now);
            &&& l.number || l.banner || l.volume || l.mute ==> p is Some && p->0 <= 50_000
            &&& now < t.osd_until + 50_000 || now < t.vol_until + 50_000 ==> p is Some
            &&& wobble(now, t.ready_at as int) > 0 || t.power_off is Some || now < 1_100_000 ==> p
                == Some(8_000int)
            &&& t.power_off is None && now >= 1_100_000 && wobble(now, t.ready_at as int) == 0
                && now >= t.osd_until + 50_000 && now >= t.vol_until + 50_000 && !(
            t.audio matches Some(a) && a.muted) ==> p is None
        }),
{
    the_picture_settles(t, st, now, now);
}

// ---------------------------------------------------------------- which frame is shown when

proof fn lemma_first_kept(pts: Seq<i64>, offset: int)
    ensures
        late(pts, offset) + 1 < pts.len() ==> pts[late(pts, offset)] - offset >= -40_000,
    decreases pts.len(),
{
    if pts.len() > 1 && pts[0] - offset < -LATE {
        lemma_late(pts.drop_first(), offset);
        lemma_first_kept(pts.drop_first(), offset);
    }
}

/// Frames that are more than 0.04 seconds late are passed over, but never the last one: something is
/// always there to show. The first that is kept is not late, or has none behind it.
pub proof fn late_frames_are_passed_over(pts: Seq<i64>, offset: int)
    requires
        pts.len() > 0,
    ensures
        0 <= late(pts, offset) < pts.len(),
        forall|i: int| 0 <= i < late(pts, offset) ==> #[trigger] pts[i] < offset - 40_000,
        late(pts, offset) + 1 < pts.len() ==> pts[late(pts, offset)] >= offset - 40_000,
{
    lemma_late(pts, offset);
    lemma_first_kept(pts, offset);
}

/// The next frame is shown when it is due, to 0.002 seconds; earlier only as the first of its
/// channel. The set does not sleep past it: it wakes when the frame is due, and after 0.02 seconds at
/// the latest.
pub proof fn frames_are_shown_when_due(
    t: TvView,
    pts: Seq<i64>,
    offset: int,
    now: int,
    since_paint: int,
)
    requires
        0 <= dropped(pts, offset) < pts.len(),
        -0x4000_0000_0000_0000 <= offset <= 0x4000_0000_0000_0000,
        0 <= now,
    ensures
        ({
            let x = t.ticks(pts, offset, now, since_paint);
            let next = pts[dropped(pts, offset)];
            &&& next <= offset + 2_000 ==> x.show
            &&& next > offset + 2_000 ==> x.show == (t.presented_gen != t.gen)
            &&& x.wake <= 20_000
            &&& !x.show ==> x.wake <= next - offset
            &&& x.show ==> x.wake == 1_000 && !x.repaint
            &&& x.first == (t.presented_gen != t.gen)
        }),
{
}

/// Until a frame comes the screen lives on: where there is none to show, it is drawn again whenever
/// its period is over, every 0.008 seconds while it snows.
pub proof fn the_screen_lives_on(t: TvView, offset: int, now: int, since_paint: int)
    requires
        0 <= now,
        t.power_off is None,
    ensures
        ({
            let x = t.ticks(Seq::empty(), offset, now, since_paint);
            &&& !x.show && !x.exit && x.drop == 0
            &&& snow_level(now, t.ready_at as int) > 0 ==> x.repaint == (since_paint >= 8_000)
                && x.wake <= 8_000
            &&& t.cur == 0 && since_paint >= 33_000 ==> x.repaint
            &&& t.cur != 0 && snow_level(now, t.ready_at as int) == 0 && t.repaint_period(now) is None
                ==> !x.repaint && x.wake == 20_000
        }),
{
    let pts = Seq::<i64>::empty();
    assert(pts.skip(0) =~= pts);
    assert(dropped(pts, offset) == 0);
}

/// The first frame of a channel marks it as ready, once; a later one changes nothing.
pub proof fn the_first_frame_makes_ready(t: TvView, pts: Seq<i64>, offset: int, now: i64)
    ensures
        t.presented_gen != t.gen && t.shows(pts, offset) ==> t.ticked(pts, offset, now).ready_at
            == now && t.ticked(pts, offset, now).presented_gen == t.gen,
        t.presented_gen == t.gen || !t.shows(pts, offset) ==> t.ticked(pts, offset, now) == t,
        t.ticked(pts, offset, now).cur == t.cur,
{
}

/// The program ends 0.6 seconds after the set was switched off, when the collapse has played out,
/// and not otherwise.
pub proof fn the_set_ends_after_its_collapse(t: TvView, pts: Seq<i64>, offset: int, now: int, p: int)
    ensures
        t.ticks(pts, offset, now, p).exit <==> (t.power_off matches Some(at) && now >= at + 600_000),
{
}

} // verus!
