//! The set itself: what a key press, a passing moment or a reply does to it. Every operation
//! changes the state and queues what the outside has to do about it.
//!
//! Moments are microseconds since the program started.

use vstd::prelude::*;
use vstd::utf8::encode_utf8;
use crate::num::wrap;
use crate::settings::{Settings, SettingsView, MENU_LEN, MENU_ZIP};
use crate::station::Station;
use crate::text::{byte_len, decimal, decimal_chars, parse, parsed};

verus! {

pub const OSD_HOLD: i64 = 3_000_000;

pub const VOL_HOLD: i64 = 2_500_000;

/// TV-style volume steps (one bar segment each).
pub const VOL_MAX: u32 = 20;

pub const VOL_DEFAULT: u32 = 12;

pub const PREVIEW_EVERY: i64 = 8_000_000;

/// Long enough that it does not come: an hour.
pub const HOUR: i64 = 3_600_000_000;

/// The latest moment that the set is used at: some 36,000 years.
pub const LATEST: i64 = 0x1000_0000_0000_0000;

/// What the decode side is told.
#[derive(Clone, Copy, PartialEq, Eq, Structural, Debug)]
pub enum Cmd {
    /// Play channel `src`; frames are tagged `gen`. `guide`: hold music instead of its sound.
    Tune { src: usize, gen: u64, guide: bool },
    /// Hold music (Prevue channel) vs. the source channel's own audio (interactive guide).
    Music(bool),
    /// No video source (weather channel): park the active pipeline, go quiet.
    Stop,
}

/// What the outside has to do.
#[derive(Clone, Copy, PartialEq, Eq, Structural, Debug)]
pub enum Effect {
    /// Drop the queued sound.
    ClearRing,
    /// Drop the queued frames.
    ClearQueue,
    /// Drop the frame that was last on screen.
    ForgetLast,
    /// Compose a frame without video: full-screen snow.
    PaintSnow,
    /// Compose a frame with the last video frame, or snow where there is none.
    Paint,
    Send(Cmd),
    /// Point the weather page at the place in the settings.
    Navigate,
    /// Write the settings.
    Save,
    /// Look the ZIP code of the settings up.
    Lookup,
    /// Report the statistics and leave.
    Exit,
}

/// The sound device's knobs.
#[derive(Clone, Copy, PartialEq, Eq, Structural, Debug)]
pub struct Sound {
    /// 0..=20
    pub volume: u32,
    pub muted: bool,
    /// 0..=255 white noise mixed in (matches the picture snow).
    pub snow: u32,
}

pub struct Tv {
    pub settings: Settings,
    pub menu: Option<usize>,  // set up menu open, with the cursor row
    pub menu_zip: String,  // ZIP being typed on the WEATHER ZIP row
    pub geo: bool,  // ZIP lookup in flight
    pub web: bool,  // there is a page to show the weather on
    pub web_navigated: bool,
    pub cur: usize,  // displayed channel (0 = guide)
    pub preview: usize,  // channel shown in the guide's ad box (and the source for channel 0)
    pub gen: u64,  // bumps on every tune; frames tagged with an older gen are dropped
    pub presented_gen: u64,  // gen whose first frame has already been shown
    pub osd_until: i64,
    pub ready_at: i64,  // when the current channel first had a frame on screen; snow fades from here
    pub entry: String,  // digits typed on the remote, shown on the OSD until they commit
    pub entry_at: i64,
    pub preview_at: i64,
    pub guide_sel: usize,
    pub guide_top: i64,  // 0-based row (channel - 1) at the top of the grid
    pub guide_step_at: i64,  // when the top row last advanced (drives the one-row ease)
    pub guide_nav_at: i64,  // last cursor keypress
    pub guide_auto: bool,
    pub guide_snow_full: bool,  // entering the guide from a channel: snow the whole screen
    pub last_ch: usize,  // for Recall
    pub vol_until: i64,  // volume bar visible until
    pub help: bool,  // remote-control legend overlay
    pub power_off: Option<i64>,  // Esc pressed: collapse the raster, then exit
    pub audio: Option<Sound>,
    pub bench_left: u32,
    pub bench_next: i64,
    pub bench_rng: u64,
    pub dump_next: bool,
    pub shot_at: Option<i64>,
    pub out: Vec<Effect>,
}

pub struct TvView {
    pub settings: SettingsView,
    pub menu: Option<usize>,
    pub menu_zip: Seq<char>,
    pub geo: bool,
    pub web: bool,
    pub web_navigated: bool,
    pub cur: usize,
    pub preview: usize,
    pub gen: u64,
    pub presented_gen: u64,
    pub osd_until: i64,
    pub ready_at: i64,
    pub entry: Seq<char>,
    pub entry_at: i64,
    pub preview_at: i64,
    pub guide_sel: usize,
    pub guide_top: i64,
    pub guide_step_at: i64,
    pub guide_nav_at: i64,
    pub guide_auto: bool,
    pub guide_snow_full: bool,
    pub last_ch: usize,
    pub vol_until: i64,
    pub help: bool,
    pub power_off: Option<i64>,
    pub audio: Option<Sound>,
    pub bench_left: u32,
    pub bench_next: i64,
    pub bench_rng: u64,
    pub dump_next: bool,
    pub shot_at: Option<i64>,
    pub out: Seq<Effect>,
}

impl View for Tv {
    type V = TvView;

    open spec fn view(&self) -> TvView {
        TvView {
            settings: self.settings@,
            menu: self.menu,
            menu_zip: self.menu_zip@,
            geo: self.geo,
            web: self.web,
            web_navigated: self.web_navigated,
            cur: self.cur,
            preview: self.preview,
            gen: self.gen,
            presented_gen: self.presented_gen,
            osd_until: self.osd_until,
            ready_at: self.ready_at,
            entry: self.entry@,
            entry_at: self.entry_at,
            preview_at: self.preview_at,
            guide_sel: self.guide_sel,
            guide_top: self.guide_top,
            guide_step_at: self.guide_step_at,
            guide_nav_at: self.guide_nav_at,
            guide_auto: self.guide_auto,
            guide_snow_full: self.guide_snow_full,
            last_ch: self.last_ch,
            vol_until: self.vol_until,
            help: self.help,
            power_off: self.power_off,
            audio: self.audio,
            bench_left: self.bench_left,
            bench_next: self.bench_next,
            bench_rng: self.bench_rng,
            dump_next: self.dump_next,
            shot_at: self.shot_at,
            out: self.out@,
        }
    }
}

/// A moment at which the set can be used.
pub open spec fn moment(now: i64) -> bool {
    0 <= now <= LATEST
}

/// How many digits a channel number is shown in: two, or more when there are 100 channels.
pub open spec fn digits_for(count: int) -> nat {
    if decimal((count - 1) as nat).len() < 2 {
        2
    } else {
        decimal((count - 1) as nat).len()
    }
}

pub open spec fn is_digit(c: char) -> bool {
    '0' <= c <= '9'
}

impl TvView {
    /// The set is in order for a station of `count` channels.
    pub open spec fn wf(self, count: int) -> bool {
        &&& 2 <= count <= isize::MAX
        &&& self.cur < count
        &&& 1 <= self.preview < count
        &&& 1 <= self.guide_sel < count
        &&& 1 <= self.last_ch < count
        &&& 0 <= self.guide_top < count - 1
        &&& self.menu matches Some(i) ==> i < MENU_LEN
        &&& self.audio matches Some(a) ==> a.volume <= VOL_MAX && a.snow <= 255
        &&& self.entry.len() <= digits_for(count)
        &&& forall|i: int| 0 <= i < self.entry.len() ==> is_digit(#[trigger] self.entry[i])
        &&& moments_past(self)
    }

    pub open spec fn does(self, e: Effect) -> TvView {
        TvView { out: self.out.push(e), ..self }
    }

    // ------------------------------------------------------------ tuning

    /// The channel whose pictures are shown.
    pub open spec fn source(self) -> usize {
        if self.cur == 0 {
            self.preview
        } else {
            self.cur
        }
    }

    /// The channel whose pictures would be shown on channel `ch`.
    pub open spec fn source_for(self, ch: usize) -> usize {
        if ch == 0 {
            self.preview
        } else {
            ch
        }
    }

    /// No pictures come on channel `ch`: it is the weather page, nothing was dealt to it, or it is
    /// the guide and nothing was dealt to its preview.
    pub open spec fn no_video(self, st: Station, ch: usize) -> bool {
        st.weather == Some(ch) || (ch != 0 && st.dark(ch as int)) || st.dark(
            self.source_for(ch) as int,
        )
    }

    /// The sound once channel `ch` is tuned: on the guide, coming from the guide, the music keeps
    /// playing.
    pub open spec fn hushed(self, ch: usize) -> TvView {
        let stays = self.cur == 0 && ch == 0;
        match self.audio {
            Some(a) => {
                let t = if stays {
                    self
                } else {
                    self.does(Effect::ClearRing)
                };
                TvView {
                    audio: Some(
                        Sound {
                            snow: if stays {
                                0
                            } else {
                                255
                            },
                            ..a
                        },
                    ),
                    ..t
                }
            },
            None => self,
        }
    }

    /// Where the guide stands once channel `ch` is tuned.
    pub open spec fn guide_tuned(self, st: Station, ch: usize, now: i64) -> TvView {
        if ch == 0 {
            if self.cur != 0 {
                TvView {
                    preview_at: now,
                    guide_top: (self.preview - 1) as i64,
                    guide_step_at: now,
                    guide_auto: true,
                    ..self
                }
            } else {
                TvView { preview_at: now, ..self }
            }
        } else if !self.no_video(st, ch) {
            TvView { preview: ch, ..self }
        } else {
            self
        }
    }

    /// A new tune begins: the channel left is the one to recall, frames on their way are stale.
    pub open spec fn bumped(self, ch: usize, now: i64) -> TvView {
        TvView {
            last_ch: if ch != self.cur && self.cur != 0 {
                self.cur
            } else {
                self.last_ch
            },
            gen: (self.gen + 1) as u64,
            osd_until: (now + OSD_HOLD) as i64,
            ready_at: (now + HOUR) as i64,
            ..self
        }
    }

    /// The old channel's frames are dropped: the one on screen too where black is wanted.
    pub open spec fn emptied(self, black: bool) -> TvView {
        if black {
            self.does(Effect::ForgetLast).does(Effect::ClearQueue)
        } else {
            self.does(Effect::ClearQueue)
        }
    }

    /// Channel `ch` is on, under snow; coming from the guide the screen is left as it is.
    pub open spec fn snowed(self, ch: usize) -> TvView {
        let t = TvView { cur: ch, guide_snow_full: ch == 0 && self.cur != 0, ..self };
        if self.cur == 0 {
            t
        } else {
            t.does(Effect::PaintSnow)
        }
    }

    /// No pictures are to come: snow, then the page; a dead channel just stays snow.
    pub open spec fn stopped(self, is_weather: bool, now: i64) -> TvView {
        let t = TvView {
            ready_at: if is_weather {
                (now + 650_000) as i64
            } else {
                (now + 24 * HOUR) as i64
            },
            ..self.does(Effect::Send(Cmd::Stop))
        };
        if t.web && !t.web_navigated {
            TvView { web_navigated: true, ..t }.does(Effect::Navigate)
        } else {
            t
        }
    }

    /// Pictures are to come from channel `src`. Only the Prevue channel plays hold music; the
    /// interactive guide plays the preview.
    pub open spec fn called(self, ch: usize, src: usize) -> TvView {
        self.does(
            Effect::Send(
                Cmd::Tune {
                    src,
                    gen: self.gen,
                    guide: ch == 0 && self.guide_auto && self.settings.music,
                },
            ),
        )
    }

    /// The set once channel `ch` is tuned.
    pub open spec fn tuned(self, st: Station, ch: usize, now: i64) -> TvView {
        let dead = self.no_video(st, ch);
        let t = self.guide_tuned(st, ch, now).hushed(ch).bumped(ch, now).emptied(
            dead || !self.settings.snow,
        ).snowed(ch);
        if dead {
            t.stopped(st.weather == Some(ch), now)
        } else {
            t.called(ch, self.source_for(ch))
        }
    }
}

/// Whatever has happened, happened at a moment that the clock has; whatever is set for later is at
/// most a day later.
pub open spec fn moments_past(t: TvView) -> bool {
    &&& -HOUR <= t.osd_until <= LATEST + HOUR
    &&& -HOUR <= t.ready_at <= LATEST + 24 * HOUR
    &&& moment(t.entry_at)
    &&& moment(t.preview_at)
    &&& moment(t.guide_step_at)
    &&& moment(t.guide_nav_at)
    &&& -HOUR <= t.vol_until <= LATEST + HOUR
    &&& t.power_off matches Some(p) ==> moment(p)
}

impl Tv {
    pub(crate) fn emit(&mut self, e: Effect)
        ensures
            final(self)@ == old(self)@.does(e),
    {
        self.out.push(e);
    }

    fn has_no_video(&self, st: &Station, ch: usize) -> (r: bool)
        requires
            st.wf(),
            self@.wf(st.count()),
            ch < st.count(),
        ensures
            r == self@.no_video(*st, ch),
    {
        let src = if ch == 0 { self.preview } else { ch };
        st.is_weather(ch) || (ch != 0 && st.is_dark(ch)) || st.is_dark(src)
    }

    fn tune_guide(&mut self, st: &Station, ch: usize, now: i64)
        requires
            st.wf(),
            old(self)@.wf(st.count()),
            ch < st.count(),
            moment(now),
        ensures
            final(self)@ == old(self)@.guide_tuned(*st, ch, now),
            final(self)@.wf(st.count()),
    {
        if ch == 0 {
            self.preview_at = now;
            if self.cur != 0 {
                // Channel 0 is the Prevue channel: auto-scrolling grid, rotating preview. G turns
                // it into the interactive guide (open_guide).
                self.guide_top = self.preview as i64 - 1;
                self.guide_step_at = now;
                self.guide_auto = true;
            }
        } else if !self.has_no_video(st, ch) {
            self.preview = ch;  // the weather channel has no pipeline to preview
        }
    }

    /// Snow goes up immediately on the sound, too. On the guide the music keeps playing.
    fn hush(&mut self, ch: usize)
        ensures
            final(self)@ == old(self)@.hushed(ch),
    {
        if let Some(a) = self.audio {
            let stays = self.cur == 0 && ch == 0;
            if !stays {
                self.emit(Effect::ClearRing);
            }
            self.audio = Some(Sound { snow: if stays { 0 } else { 255 }, ..a });
        }
    }

    fn bump(&mut self, ch: usize, now: i64)
        requires
            moment(now),
            old(self).gen < u64::MAX,
        ensures
            final(self)@ == old(self)@.bumped(ch, now),
    {
        if ch != self.cur && self.cur != 0 {
            self.last_ch = self.cur;
        }
        self.gen = self.gen + 1;
        self.osd_until = now + OSD_HOLD;
        self.ready_at = now + HOUR;  // the snow holds until the new channel has a frame
    }

    fn empty(&mut self, black: bool)
        ensures
            final(self)@ == old(self)@.emptied(black),
    {
        if black {
            self.emit(Effect::ForgetLast);
        }
        self.emit(Effect::ClearQueue);
    }

    fn snow_up(&mut self, ch: usize)
        ensures
            final(self)@ == old(self)@.snowed(ch),
    {
        let from_guide = self.cur == 0;
        self.cur = ch;
        self.guide_snow_full = ch == 0 && !from_guide;
        if !from_guide {
            self.emit(Effect::PaintSnow);
        }
    }

    fn stop(&mut self, is_weather: bool, now: i64)
        requires
            moment(now),
        ensures
            final(self)@ == old(self)@.stopped(is_weather, now),
    {
        self.emit(Effect::Send(Cmd::Stop));
        self.ready_at = if is_weather { now + 650_000 } else { now + 24 * HOUR };
        if self.web && !self.web_navigated {
            self.web_navigated = true;
            self.emit(Effect::Navigate);
        }
    }

    fn call_source(&mut self, ch: usize, src: usize)
        ensures
            final(self)@ == old(self)@.called(ch, src),
    {
        let guide = ch == 0 && self.guide_auto && self.settings.music;
        let gen = self.gen;
        self.emit(Effect::Send(Cmd::Tune { src, gen, guide }));
    }

    /// Keypress path: snow up, tell the decode side, return. Nothing here touches a file.
    pub fn tune(&mut self, st: &Station, ch: usize, now: i64)
        requires
            st.wf(),
            old(self)@.wf(st.count()),
            ch < st.count(),
            moment(now),
            old(self).gen < u64::MAX,
        ensures
            final(self)@ == old(self)@.tuned(*st, ch, now),
            final(self)@.wf(st.count()),
    {
        proof {
            tuning_keeps_the_set_in_order(self@, *st, ch, now);
        }
        // Channel 0 is the guide: it borrows the preview channel's pipeline for its ad box.
        let src = if ch == 0 { self.preview } else { ch };
        // The weather page has no pipeline; neither does a channel nothing was dealt to (dead air:
        // snow), nor a guide whose preview channel is one of those.
        let dead = self.has_no_video(st, ch);
        self.tune_guide(st, ch, now);
        self.hush(ch);
        self.bump(ch, now);
        let black = dead || !self.settings.snow;  // nothing of the old channel lingers
        self.empty(black);
        self.snow_up(ch);
        if dead {
            self.stop(st.is_weather(ch), now);
        } else {
            self.call_source(ch, src);
        }
    }
}

proof fn lemma_guide_tuned_wf(t: TvView, st: Station, ch: usize, now: i64)
    requires
        st.wf(),
        t.wf(st.count()),
        ch < st.count(),
        moment(now),
    ensures
        t.guide_tuned(st, ch, now).wf(st.count()),
{
}

proof fn lemma_hushed_wf(t: TvView, ch: usize, count: int)
    requires
        t.wf(count),
    ensures
        t.hushed(ch).wf(count),
{
}

proof fn lemma_bumped_wf(t: TvView, ch: usize, now: i64, count: int)
    requires
        t.wf(count),
        moment(now),
    ensures
        t.bumped(ch, now).wf(count),
{
}

proof fn lemma_emptied_wf(t: TvView, black: bool, count: int)
    requires
        t.wf(count),
    ensures
        t.emptied(black).wf(count),
{
}

proof fn lemma_snowed_wf(t: TvView, ch: usize, count: int)
    requires
        t.wf(count),
        ch < count,
    ensures
        t.snowed(ch).wf(count),
        t.snowed(ch).cur == ch,
{
}

proof fn lemma_stopped_wf(t: TvView, is_weather: bool, now: i64, count: int)
    requires
        t.wf(count),
        moment(now),
    ensures
        t.stopped(is_weather, now).wf(count),
        t.stopped(is_weather, now).cur == t.cur,
{
}

/// Tuning leaves the set in order, on the channel that was asked for.
pub proof fn tuning_keeps_the_set_in_order(t: TvView, st: Station, ch: usize, now: i64)
    requires
        st.wf(),
        t.wf(st.count()),
        ch < st.count(),
        moment(now),
    ensures
        t.tuned(st, ch, now).wf(st.count()),
        t.tuned(st, ch, now).cur == ch,
{
    let count = st.count();
    let black = t.no_video(st, ch) || !t.settings.snow;
    let t1 = t.guide_tuned(st, ch, now);
    let t2 = t1.hushed(ch);
    let t3 = t2.bumped(ch, now);
    let t4 = t3.emptied(black);
    let t5 = t4.snowed(ch);
    lemma_guide_tuned_wf(t, st, ch, now);
    lemma_hushed_wf(t1, ch, count);
    lemma_bumped_wf(t2, ch, now, count);
    lemma_emptied_wf(t3, black, count);
    lemma_snowed_wf(t4, ch, count);
    lemma_stopped_wf(t5, st.weather == Some(ch), now, count);
}

// ---------------------------------------------------------------- typing a channel

impl TvView {
    /// The typed channel number is taken: tuned if there is such a channel, else just dropped.
    pub open spec fn committed(self, st: Station, now: i64) -> TvView {
        let t = TvView { entry: Seq::empty(), ..self };
        match parsed(self.entry, usize::MAX as nat) {
            Some(n) => if n < st.count() {
                t.tuned(st, n as usize, now)
            } else {
                t.does(Effect::Paint)
            },
            None => t.does(Effect::Paint),
        }
    }

    /// A digit was typed.
    pub open spec fn typed(self, d: char, now: i64) -> TvView {
        TvView {
            entry: self.entry.push(d),
            entry_at: now,
            osd_until: (now + OSD_HOLD) as i64,
            ..self
        }.does(Effect::Paint)
    }
}

proof fn lemma_cleared_wf(t: TvView, count: int)
    requires
        t.wf(count),
    ensures
        (TvView { entry: Seq::empty(), ..t }).wf(count),
        t.does(Effect::Paint).wf(count),
{
}

impl Tv {
    fn clear_entry(&mut self)
        ensures
            final(self)@ == (TvView { entry: Seq::empty(), ..old(self)@ }),
    {
        let none = String::new();
        assert(none@ =~= Seq::empty());
        self.entry = none;
    }

    /// Minimum digits on the channel OSD (2, or more when there are 100+ channels).
    pub fn digits(st: &Station) -> (r: usize)
        requires
            st.wf(),
        ensures
            r == digits_for(st.count()),
    {
        let d = decimal_chars(st.scheds.len() as u64 - 1);
        if d.len() < 2 {
            2
        } else {
            d.len()
        }
    }

    /// Tune to the typed channel number if it exists; otherwise just drop the entry.
    pub fn commit_entry(&mut self, st: &Station, now: i64)
        requires
            st.wf(),
            old(self)@.wf(st.count()),
            moment(now),
            old(self).gen < u64::MAX,
        ensures
            final(self)@ == old(self)@.committed(*st, now),
            final(self)@.wf(st.count()),
    {
        proof {
            lemma_cleared_wf(self@, st.count());
            lemma_cleared_wf(TvView { entry: Seq::empty(), ..self@ }, st.count());
        }
        let n = parse(self.entry.as_str(), usize::MAX as u64);
        self.clear_entry();
        match n {
            Some(n) => if n < st.scheds.len() as u64 {
                self.tune(st, n as usize, now);
            } else {
                self.emit(Effect::Paint);
            },
            None => self.emit(Effect::Paint),
        }
    }
}

// ---------------------------------------------------------------- the guide

impl TvView {
    /// The interactive guide is open: the cursor starts on the channel we came from (or the
    /// preview).
    pub open spec fn guide_opened(self, st: Station, now: i64) -> TvView {
        let t = if self.cur != 0 {
            self.tuned(st, 0, now)
        } else {
            self
        };
        TvView {
            guide_auto: false,
            guide_sel: t.preview,
            guide_top: (t.preview - 1) as i64,
            guide_step_at: now,
            guide_nav_at: now,
            ..t
        }.does(Effect::Send(Cmd::Music(false))).does(Effect::Paint)
    }

    /// Enter with nothing typed.
    pub open spec fn selected(self, st: Station, now: i64) -> TvView {
        if self.cur == 0 {
            self.tuned(
                st,
                if self.guide_auto {
                    self.preview
                } else {
                    self.guide_sel
                },
                now,
            )
        } else {
            TvView { osd_until: (now + OSD_HOLD) as i64, ..self }.does(Effect::Paint)
        }
    }

    /// The row to which the guide scrolls when its cursor moves to channel `sel` by `delta` rows,
    /// `rows` of them being on screen.
    pub open spec fn scrolled(self, count: int, sel: int, delta: int, rows: int) -> int {
        let n = count - 1;
        let rel = (sel - 1 - self.guide_top) % n;
        if delta == -1 && rel == n - 1 {
            sel - 1
        } else if delta == 1 && rel == rows - 1 {
            (self.guide_top + 1) % n
        } else if rel >= rows - 1 {
            (sel - 1 - rows / 2) % n
        } else {
            self.guide_top as int
        }
    }

    /// The guide's cursor moves by `delta` rows, round the list.
    pub open spec fn guide_moved(self, count: int, delta: int, rows: int, now: i64) -> TvView {
        let sel = (self.guide_sel - 1 + delta) % (count - 1) + 1;
        TvView {
            guide_sel: sel as usize,
            guide_nav_at: now,
            guide_step_at: now,
            guide_top: self.scrolled(count, sel, delta, rows) as i64,
            ..self
        }.does(Effect::Paint)
    }
}

proof fn lemma_scrolled_range(t: TvView, count: int, sel: int, delta: int, rows: int)
    requires
        t.wf(count),
        1 <= sel < count,
    ensures
        0 <= t.scrolled(count, sel, delta, rows) < count - 1,
{
    let n = count - 1;
    vstd::arithmetic::div_mod::lemma_mod_bound(t.guide_top + 1, n);
    vstd::arithmetic::div_mod::lemma_mod_bound(sel - 1 - rows / 2, n);
}

proof fn lemma_guide_opened_wf(t: TvView, st: Station, now: i64)
    requires
        st.wf(),
        t.wf(st.count()),
        moment(now),
    ensures
        t.guide_opened(st, now).wf(st.count()),
{
    tuning_keeps_the_set_in_order(t, st, 0, now);
    let u = if t.cur != 0 {
        t.tuned(st, 0, now)
    } else {
        t
    };
    assert(u.wf(st.count()));
}

impl Tv {
    /// G: the interactive guide. Cursor starts on the channel we came from (or the preview).
    pub fn open_guide(&mut self, st: &Station, now: i64)
        requires
            st.wf(),
            old(self)@.wf(st.count()),
            moment(now),
            old(self).gen < u64::MAX,
        ensures
            final(self)@ == old(self)@.guide_opened(*st, now),
            final(self)@.wf(st.count()),
    {
        proof {
            lemma_guide_opened_wf(self@, *st, now);
        }
        if self.cur != 0 {
            self.tune(st, 0, now);
        }
        self.guide_auto = false;
        self.guide_sel = self.preview;
        self.guide_top = self.preview as i64 - 1;
        self.guide_step_at = now;
        self.guide_nav_at = now;
        self.emit(Effect::Send(Cmd::Music(false)));
        self.emit(Effect::Paint);
    }

    /// Enter with nothing typed: in the interactive guide it tunes the cursor row, on the Prevue
    /// channel it tunes what's previewing, on a channel it brings up the info banner.
    pub fn select(&mut self, st: &Station, now: i64)
        requires
            st.wf(),
            old(self)@.wf(st.count()),
            moment(now),
            old(self).gen < u64::MAX,
        ensures
            final(self)@ == old(self)@.selected(*st, now),
            final(self)@.wf(st.count()),
    {
        if self.cur == 0 {
            let ch = if self.guide_auto { self.preview } else { self.guide_sel };
            self.tune(st, ch, now);
        } else {
            self.osd_until = now + OSD_HOLD;
            self.emit(Effect::Paint);
        }
    }

    /// Move the guide cursor by `delta` rows and keep it on screen; the ad box follows (debounced
    /// in `idle` so a held key doesn't fire a tune per row).
    pub fn guide_move(&mut self, st: &Station, delta: i32, rows: i64, now: i64)
        requires
            st.wf(),
            old(self)@.wf(st.count()),
            moment(now),
            rows >= 2,
        ensures
            final(self)@ == old(self)@.guide_moved(st.count(), delta as int, rows as int, now),
            final(self)@.wf(st.count()),
    {
        let ghost before = self@;
        let n: i128 = st.scheds.len() as i128 - 1;
        let sel: i128 = wrap(self.guide_sel as i128 - 1 + delta as i128, n) + 1;
        let top: i128 = self.guide_top as i128;
        let rel: i128 = wrap(sel - 1 - top, n);
        // Keep the cursor within the visible rows; scroll the grid if needed.
        let new_top: i128 = if delta == -1 && rel == n - 1 {
            sel - 1  // stepped above the top: scroll up one
        } else if delta == 1 && rel == rows as i128 - 1 {
            wrap(top + 1, n)  // stepped off the bottom
        } else if rel >= rows as i128 - 1 {
            wrap(sel - 1 - rows as i128 / 2, n)  // jumped: recenter
        } else {
            top
        };
        proof {
            lemma_scrolled_range(before, st.count(), sel as int, delta as int, rows as int);
        }
        self.guide_sel = sel as usize;
        self.guide_nav_at = now;
        self.guide_step_at = now;
        self.guide_top = new_top as i64;
        self.emit(Effect::Paint);
    }
}

/// The guide's cursor never leaves the list of channels, and a step one way and back again is
/// where it was.
pub proof fn guide_cursor_steps_back(
    t: TvView,
    count: int,
    delta: int,
    rows: int,
    rows2: int,
    now: i64,
    later: i64,
)
    requires
        t.wf(count),
    ensures
        1 <= t.guide_moved(count, delta, rows, now).guide_sel < count,
        t.guide_moved(count, delta, rows, now).guide_moved(count, -delta, rows2, later).guide_sel
            == t.guide_sel,
{
    let n = count - 1;
    let x = t.guide_sel - 1;
    vstd::arithmetic::div_mod::lemma_mod_bound(x + delta, n);
    vstd::arithmetic::div_mod::lemma_sub_mod_noop(x + delta, delta, n);
    vstd::arithmetic::div_mod::lemma_sub_mod_noop((x + delta) % n, delta, n);
    vstd::arithmetic::div_mod::lemma_mod_twice(x + delta, n);
    vstd::arithmetic::div_mod::lemma_small_mod(x as nat, n as nat);
    assert(((x + delta) % n - delta) % n == (x + delta - delta) % n);
}

/// However far the cursor moves, it stays on screen: at most `rows` rows below the top one.
pub proof fn the_cursor_stays_on_screen(t: TvView, count: int, delta: int, rows: int, now: i64)
    requires
        t.wf(count),
        2 <= rows,
    ensures
        0 <= (t.guide_moved(count, delta, rows, now).guide_sel - 1 - t.guide_moved(
            count,
            delta,
            rows,
            now,
        ).guide_top) % (count - 1) < rows,
{
    let n = count - 1;
    vstd::arithmetic::div_mod::lemma_mod_bound(t.guide_sel - 1 + delta, n);
    let sel = (t.guide_sel - 1 + delta) % n + 1;
    let top = t.guide_top as int;
    let rel = (sel - 1 - top) % n;
    vstd::arithmetic::div_mod::lemma_mod_bound(sel - 1 - top, n);
    lemma_scrolled_range(t, count, sel, delta, rows);
    let new_top = t.scrolled(count, sel, delta, rows);
    if delta == -1 && rel == n - 1 {
        vstd::arithmetic::div_mod::lemma_small_mod(0, n as nat);
    } else if delta == 1 && rel == rows - 1 {
        // One row up: (sel - 1) - (top + 1) is one less.
        vstd::arithmetic::div_mod::lemma_sub_mod_noop_right(sel - 1, top + 1, n);
        vstd::arithmetic::div_mod::lemma_sub_mod_noop(sel - 1 - top, 1, n);
        vstd::arithmetic::div_mod::lemma_sub_mod_noop_right(rel, 1, n);
        assert((sel - 1 - new_top) % n == (sel - 1 - (top + 1)) % n);
        assert(sel - 1 - (top + 1) == sel - 1 - top - 1);
        assert((sel - 1 - top - 1) % n == (rel - 1) % n);
        vstd::arithmetic::div_mod::lemma_small_mod((rel - 1) as nat, n as nat);
    } else if rel >= rows - 1 {
        vstd::arithmetic::div_mod::lemma_sub_mod_noop_right(sel - 1, sel - 1 - rows / 2, n);
        assert((sel - 1 - new_top) % n == (rows / 2) % n);
        vstd::arithmetic::div_mod::lemma_mod_bound(rows / 2, n);
        vstd::arithmetic::div_mod::lemma_mod_decreases((rows / 2) as nat, n as nat);
    }
}

// ---------------------------------------------------------------- volume and power

impl TvView {
    pub open spec fn louder(self, delta: int, now: i64) -> TvView {
        match self.audio {
            Some(a) => {
                let v = a.volume + delta;
                let w = if v < 0 {
                    0
                } else if v > VOL_MAX {
                    VOL_MAX as int
                } else {
                    v
                };
                TvView {
                    audio: Some(Sound { volume: w as u32, muted: false, ..a }),
                    vol_until: (now + VOL_HOLD) as i64,
                    ..self
                }.does(Effect::Paint)
            },
            None => self,
        }
    }

    pub open spec fn mute_toggled(self, now: i64) -> TvView {
        match self.audio {
            Some(a) => TvView {
                audio: Some(Sound { muted: !a.muted, ..a }),
                vol_until: (now + VOL_HOLD) as i64,
                ..self
            }.does(Effect::Paint),
            None => self,
        }
    }

    pub open spec fn powered_down(self, now: i64) -> TvView {
        if self.power_off is Some {
            self
        } else {
            TvView {
                power_off: Some(now),
                menu: None,
                help: false,
                audio: match self.audio {
                    Some(a) => Some(Sound { muted: true, ..a }),
                    None => None,
                },
                ..self
            }.does(Effect::Paint)
        }
    }

    /// The window's close button: the power button, and the way out for the impatient.
    pub open spec fn closed(self, now: i64) -> TvView {
        if self.power_off is Some {
            self.does(Effect::Exit)
        } else {
            self.powered_down(now)
        }
    }
}

impl Tv {
    pub fn set_volume(&mut self, st: &Station, delta: i32, now: i64)
        requires
            old(self)@.wf(st.count()),
            moment(now),
        ensures
            final(self)@ == old(self)@.louder(delta as int, now),
            final(self)@.wf(st.count()),
    {
        if let Some(a) = self.audio {
            let v: i64 = a.volume as i64 + delta as i64;
            let w: u32 = if v < 0 {
                0
            } else if v > VOL_MAX as i64 {
                VOL_MAX
            } else {
                v as u32
            };
            self.audio = Some(Sound { volume: w, muted: false, ..a });
            self.vol_until = now + VOL_HOLD;
            self.emit(Effect::Paint);
        }
    }

    pub fn toggle_mute(&mut self, st: &Station, now: i64)
        requires
            old(self)@.wf(st.count()),
            moment(now),
        ensures
            final(self)@ == old(self)@.mute_toggled(now),
            final(self)@.wf(st.count()),
    {
        if let Some(a) = self.audio {
            self.audio = Some(Sound { muted: !a.muted, ..a });
            self.vol_until = now + VOL_HOLD;
            self.emit(Effect::Paint);
        }
    }

    /// Power off: mute, collapse the raster; `tick` exits once the collapse has played out.
    pub fn power_down(&mut self, st: &Station, now: i64)
        requires
            old(self)@.wf(st.count()),
            moment(now),
        ensures
            final(self)@ == old(self)@.powered_down(now),
            final(self)@.wf(st.count()),
    {
        if self.power_off.is_some() {
            return;
        }
        self.power_off = Some(now);
        self.menu = None;
        self.help = false;
        if let Some(a) = self.audio {
            self.audio = Some(Sound { muted: true, ..a });
        }
        self.emit(Effect::Paint);
    }
}

// ---------------------------------------------------------------- the remote control

/// The keys of the remote control.
#[derive(Clone, Copy, PartialEq, Eq, Structural, Debug)]
pub enum Key {
    Up,
    Down,
    Left,
    Right,
    Enter,
    Backspace,
    Digit(char),
    Plus,
    Minus,
    /// The letters: C tube, G guide, H help (F1 too), I info, M mute, R recall, S set up.
    C,
    G,
    H,
    I,
    M,
    R,
    S,
    Escape,
    Other,
}

impl TvView {
    /// The typed ZIP is taken: saved, and looked up.
    pub open spec fn zip_applied(self) -> TvView {
        if encode_utf8(self.menu_zip).len() != 5 || self.geo {
            self
        } else {
            TvView {
                settings: SettingsView { weather_zip: self.menu_zip, ..self.settings },
                geo: true,
                ..self
            }.does(Effect::Save).does(Effect::Lookup)
        }
    }

    /// Row `i` of the menu was changed.
    pub open spec fn row_changed(self, i: usize, dir: int) -> TvView {
        if i == MENU_ZIP {
            self
        } else {
            let t = TvView {
                settings: self.settings.adjusted(i as int, dir),
                ..self
            }.does(Effect::Save);
            if t.cur == 0 {
                t.does(Effect::Send(Cmd::Music(t.guide_auto && t.settings.music)))
            } else {
                t
            }
        }
    }

    /// What a key does in the set up menu, the cursor being on row `i`.
    pub open spec fn menu_acted(self, i: usize, k: Key) -> TvView {
        match k {
            Key::Digit(d) if i == MENU_ZIP => if encode_utf8(self.menu_zip).len() < 5 {
                TvView { menu_zip: self.menu_zip.push(d), ..self }
            } else {
                self
            },
            Key::Backspace if i == MENU_ZIP => TvView {
                menu_zip: if self.menu_zip.len() > 0 {
                    self.menu_zip.drop_last()
                } else {
                    self.menu_zip
                },
                ..self
            },
            Key::Up => TvView {
                menu: Some(
                    if i == 0 {
                        (MENU_LEN - 1) as usize
                    } else {
                        (i - 1) as usize
                    },
                ),
                ..self
            },
            Key::Down => TvView {
                menu: Some(
                    if i + 1 == MENU_LEN {
                        0
                    } else {
                        (i + 1) as usize
                    },
                ),
                ..self
            },
            Key::Left => self.row_changed(i, -1),
            Key::Right => self.row_changed(i, 1),
            Key::Enter => if i == MENU_ZIP {
                self.zip_applied()
            } else {
                self.row_changed(i, 1)
            },
            Key::S | Key::Escape => TvView { menu: None, ..self },
            _ => self,
        }
    }

    /// A key in the set up menu, the cursor being on row `i`.
    pub open spec fn menu_keyed(self, i: usize, k: Key) -> TvView {
        self.menu_acted(i, k).does(Effect::Paint)
    }

    /// A digit on the remote control.
    pub open spec fn digit_keyed(self, st: Station, d: char, now: i64) -> TvView {
        let nd = digits_for(st.count());
        let t = if self.entry.len() < nd {
            self.typed(d, now)
        } else {
            self
        };
        if t.entry.len() == nd {
            t.committed(st, now)
        } else {
            t
        }
    }

    /// A step of `delta` channels; in the interactive guide the cursor steps, and up is toward
    /// lower channel numbers (up the screen).
    pub open spec fn stepped(self, st: Station, delta: int, rows: int, now: i64) -> TvView {
        let t = TvView { entry: Seq::empty(), ..self };
        if t.cur == 0 && !t.guide_auto {
            t.guide_moved(st.count(), -delta, rows, now)
        } else {
            t.tuned(st, ((t.cur + delta) % st.count()) as usize, now)
        }
    }

    /// Back to the previous channel (never the guide).
    pub open spec fn recalled(self, st: Station, now: i64) -> TvView {
        let t = TvView { entry: Seq::empty(), ..self };
        if t.last_ch != 0 && t.last_ch != t.cur && t.last_ch < st.count() {
            t.tuned(st, t.last_ch, now)
        } else {
            t
        }
    }

    /// The guide key: opens the interactive guide, and closes it again.
    pub open spec fn guide_keyed(self, st: Station, now: i64) -> TvView {
        let t = TvView { entry: Seq::empty(), ..self };
        if t.cur == 0 && !t.guide_auto {
            t.tuned(st, t.last_ch, now)
        } else {
            t.guide_opened(st, now)
        }
    }

    /// The keys that only change what lies over the picture: the legend, the tube, the menu.
    pub open spec fn screen_acted(self, k: Key) -> TvView {
        match k {
            Key::H => TvView { help: !self.help, ..self },
            Key::C => TvView {
                settings: SettingsView { crt: !self.settings.crt, ..self.settings },
                ..self
            }.does(Effect::Save),
            Key::S => TvView { menu: Some(0), menu_zip: self.settings.weather_zip, ..self },
            _ => self,
        }
    }

    pub open spec fn screen_keyed(self, k: Key) -> TvView {
        self.screen_acted(k).does(Effect::Paint)
    }

    /// Any key dismisses the legend, then acts normally; but for those that do so themselves.
    pub open spec fn dismissed(self, k: Key) -> TvView {
        if k == Key::H || k == Key::Escape {
            self
        } else {
            TvView { help: false, ..self }
        }
    }

    /// A key outside the menu.
    pub open spec fn channel_keyed(self, st: Station, k: Key, rows: int, now: i64) -> TvView {
        let t = self.dismissed(k);
        match k {
            Key::Digit(d) => t.digit_keyed(st, d, now),
            Key::Up => t.stepped(st, 1, rows, now),
            Key::Down => t.stepped(st, -1, rows, now),
            Key::Right => t.stepped(st, 10, rows, now),
            Key::Left => t.stepped(st, -10, rows, now),
            Key::Enter => if t.entry.len() == 0 {
                t.selected(st, now)
            } else {
                t.committed(st, now)
            },
            Key::Backspace | Key::R => t.recalled(st, now),
            Key::Plus => t.louder(1, now),
            Key::Minus => t.louder(-1, now),
            Key::M => t.mute_toggled(now),
            Key::I => t.selected(st, now),
            Key::G => t.guide_keyed(st, now),
            Key::Escape => if t.help {
                t.screen_keyed(Key::H)
            } else {
                t.powered_down(now)
            },
            Key::H | Key::C | Key::S => t.screen_keyed(k),
            Key::Other => t,
        }
    }

    /// The set once a key was pressed; while it powers off, keys do nothing.
    pub open spec fn keyed(self, st: Station, k: Key, rows: int, now: i64) -> TvView {
        if self.power_off is Some {
            self
        } else {
            match self.menu {
                Some(i) => self.menu_keyed(i, k),
                None => self.channel_keyed(st, k, rows, now),
            }
        }
    }
}

/// The digit keys carry digits.
pub open spec fn key_ok(k: Key) -> bool {
    k matches Key::Digit(d) ==> is_digit(d)
}

impl Tv {
    /// WEATHER ZIP row: commit the typed ZIP and have it looked up.
    pub fn apply_zip(&mut self)
        ensures
            final(self)@ == old(self)@.zip_applied(),
    {
        if byte_len(self.menu_zip.as_str()) != 5 || self.geo {
            return;
        }
        self.settings.weather_zip = self.menu_zip.clone();
        self.geo = true;
        self.emit(Effect::Save);
        self.emit(Effect::Lookup);
    }

    fn change_row(&mut self, i: usize, dir: i32)
        ensures
            final(self)@ == old(self)@.row_changed(i, dir as int),
    {
        if i == MENU_ZIP {
            return;
        }
        self.settings.adjust(i, dir);
        self.emit(Effect::Save);
        if self.cur == 0 {
            let m = self.guide_auto && self.settings.music;
            self.emit(Effect::Send(Cmd::Music(m)));
        }
    }

    fn set_menu(&mut self, row: Option<usize>)
        ensures
            final(self)@ == (TvView { menu: row, ..old(self)@ }),
    {
        self.menu = row;
    }

    fn zip_digit(&mut self, d: char)
        ensures
            final(self)@ == (if encode_utf8(old(self)@.menu_zip).len() < 5 {
                TvView { menu_zip: old(self)@.menu_zip.push(d), ..old(self)@ }
            } else {
                old(self)@
            }),
    {
        if byte_len(self.menu_zip.as_str()) < 5 {
            self.menu_zip.push(d);
        }
    }

    fn zip_back(&mut self)
        ensures
            final(self)@ == (TvView {
                menu_zip: if old(self)@.menu_zip.len() > 0 {
                    old(self)@.menu_zip.drop_last()
                } else {
                    old(self)@.menu_zip
                },
                ..old(self)@
            }),
    {
        let dropped = self.menu_zip.pop();
    }

    fn menu_act(&mut self, i: usize, k: Key)
        requires
            i < MENU_LEN,
        ensures
            final(self)@ == old(self)@.menu_acted(i, k),
    {
        match k {
            Key::Digit(d) => if i == MENU_ZIP {
                self.zip_digit(d);
            },
            Key::Backspace => if i == MENU_ZIP {
                self.zip_back();
            },
            Key::Up => self.set_menu(Some(if i == 0 { MENU_LEN - 1 } else { i - 1 })),
            Key::Down => self.set_menu(Some(if i + 1 == MENU_LEN { 0 } else { i + 1 })),
            Key::Left => self.change_row(i, -1),
            Key::Right => self.change_row(i, 1),
            Key::Enter => if i == MENU_ZIP {
                self.apply_zip();
            } else {
                self.change_row(i, 1);
            },
            Key::S | Key::Escape => self.set_menu(None),
            _ => {},
        }
    }

    fn menu_key(&mut self, i: usize, k: Key)
        requires
            i < MENU_LEN,
        ensures
            final(self)@ == old(self)@.menu_keyed(i, k),
    {
        self.menu_act(i, k);
        self.emit(Effect::Paint);
    }

    fn type_digit(&mut self, d: char, now: i64)
        requires
            moment(now),
        ensures
            final(self)@ == old(self)@.typed(d, now),
    {
        self.entry.push(d);
        self.entry_at = now;
        self.osd_until = now + OSD_HOLD;
        self.emit(Effect::Paint);
    }
}

proof fn lemma_typed_wf(t: TvView, d: char, now: i64, count: int)
    requires
        t.wf(count),
        is_digit(d),
        moment(now),
        t.entry.len() < digits_for(count),
    ensures
        t.typed(d, now).wf(count),
{
}

/// `u` is `t` but for the menu, the settings and the page.
spec fn menu_only(t: TvView, u: TvView) -> bool {
    u == (TvView {
        settings: u.settings,
        menu: u.menu,
        menu_zip: u.menu_zip,
        geo: u.geo,
        out: u.out,
        help: u.help,
        ..t
    })
}

/// The menu, the settings and the page do not bear on the rest of the set.
proof fn lemma_menu_apart(t: TvView, u: TvView, count: int)
    requires
        t.wf(count),
        menu_only(t, u),
        u.menu matches Some(i) ==> i < MENU_LEN,
    ensures
        u.wf(count),
{
}

proof fn lemma_row_apart(t: TvView, i: usize, dir: int)
    ensures
        menu_only(t, t.row_changed(i, dir)),
        t.row_changed(i, dir).menu == t.menu,
{
}

proof fn lemma_zip_apart(t: TvView)
    ensures
        menu_only(t, t.zip_applied()),
        t.zip_applied().menu == t.menu,
{
}

proof fn lemma_menu_acted_apart(t: TvView, i: usize, k: Key)
    requires
        i < MENU_LEN,
        t.menu == Some(i),
    ensures
        menu_only(t, t.menu_acted(i, k)),
        t.menu_acted(i, k).menu matches Some(j) ==> j < MENU_LEN,
{
    match k {
        Key::Left => lemma_row_apart(t, i, -1),
        Key::Right => lemma_row_apart(t, i, 1),
        Key::Enter => {
            lemma_zip_apart(t);
            lemma_row_apart(t, i, 1);
        },
        _ => {},
    }
}

proof fn lemma_menu_keyed_apart(t: TvView, i: usize, k: Key)
    requires
        i < MENU_LEN,
        t.menu == Some(i),
    ensures
        menu_only(t, t.menu_keyed(i, k)),
        t.menu_keyed(i, k).menu matches Some(j) ==> j < MENU_LEN,
{
    lemma_menu_acted_apart(t, i, k);
    let u = t.menu_acted(i, k);
    assert(menu_only(t, u.does(Effect::Paint)));
}

impl Tv {
    fn digit_key(&mut self, st: &Station, d: char, now: i64)
        requires
            st.wf(),
            old(self)@.wf(st.count()),
            moment(now),
            is_digit(d),
            old(self).gen < u64::MAX,
        ensures
            final(self)@ == old(self)@.digit_keyed(*st, d, now),
            final(self)@.wf(st.count()),
    {
        let nd = Tv::digits(st);
        if self.entry.as_str().unicode_len() < nd {
            proof {
                lemma_typed_wf(self@, d, now, st.count());
            }
            self.type_digit(d, now);
        }
        if self.entry.as_str().unicode_len() == nd {
            self.commit_entry(st, now);
        }
    }

    fn step(&mut self, st: &Station, delta: i32, rows: i64, now: i64)
        requires
            st.wf(),
            old(self)@.wf(st.count()),
            moment(now),
            rows >= 2,
            -10 <= delta <= 10,
            old(self).gen < u64::MAX,
        ensures
            final(self)@ == old(self)@.stepped(*st, delta as int, rows as int, now),
            final(self)@.wf(st.count()),
    {
        proof {
            lemma_cleared_wf(self@, st.count());
        }
        self.clear_entry();
        if self.cur == 0 && !self.guide_auto {
            self.guide_move(st, -delta, rows, now);
        } else {
            let next: usize = wrap(self.cur as i128 + delta as i128, st.scheds.len() as i128) as usize;
            self.tune(st, next, now);
        }
    }

    fn recall(&mut self, st: &Station, now: i64)
        requires
            st.wf(),
            old(self)@.wf(st.count()),
            moment(now),
            old(self).gen < u64::MAX,
        ensures
            final(self)@ == old(self)@.recalled(*st, now),
            final(self)@.wf(st.count()),
    {
        proof {
            lemma_cleared_wf(self@, st.count());
        }
        self.clear_entry();
        let last = self.last_ch;
        if last != 0 && last != self.cur && last < st.scheds.len() {
            self.tune(st, last, now);
        }
    }

    fn guide_key(&mut self, st: &Station, now: i64)
        requires
            st.wf(),
            old(self)@.wf(st.count()),
            moment(now),
            old(self).gen < u64::MAX,
        ensures
            final(self)@ == old(self)@.guide_keyed(*st, now),
            final(self)@.wf(st.count()),
    {
        proof {
            lemma_cleared_wf(self@, st.count());
        }
        self.clear_entry();
        if self.cur == 0 && !self.guide_auto {
            // Already in the interactive guide: G closes it.
            let last = self.last_ch;
            self.tune(st, last, now);
        } else {
            self.open_guide(st, now);
        }
    }

    fn flip_tube(&mut self)
        ensures
            final(self)@ == (TvView {
                settings: SettingsView { crt: !old(self)@.settings.crt, ..old(self)@.settings },
                ..old(self)@
            }).does(Effect::Save),
    {
        self.settings.crt = !self.settings.crt;
        self.emit(Effect::Save);
    }

    fn open_menu(&mut self)
        ensures
            final(self)@ == (TvView {
                menu: Some(0),
                menu_zip: old(self)@.settings.weather_zip,
                ..old(self)@
            }),
    {
        self.menu = Some(0);
        self.menu_zip = self.settings.weather_zip.clone();
    }

    fn set_help(&mut self, on: bool)
        ensures
            final(self)@ == (TvView { help: on, ..old(self)@ }),
    {
        self.help = on;
    }

    fn screen_act(&mut self, k: Key)
        ensures
            final(self)@ == old(self)@.screen_acted(k),
    {
        match k {
            Key::H => {
                let on = !self.help;
                self.set_help(on);
            },
            Key::C => self.flip_tube(),
            Key::S => self.open_menu(),
            _ => {},
        }
    }

    fn screen_key(&mut self, st: &Station, k: Key)
        requires
            old(self)@.wf(st.count()),
            old(self).menu is None,
        ensures
            final(self)@ == old(self)@.screen_keyed(k),
            final(self)@.wf(st.count()),
    {
        proof {
            lemma_menu_apart(self@, self@.screen_keyed(k), st.count());
        }
        self.screen_act(k);
        self.emit(Effect::Paint);
    }

    fn dismiss(&mut self, st: &Station, k: Key)
        requires
            old(self)@.wf(st.count()),
        ensures
            final(self)@ == old(self)@.dismissed(k),
            final(self)@.wf(st.count()),
    {
        if k != Key::H && k != Key::Escape {
            self.help = false;
        }
    }

    fn channel_key(&mut self, st: &Station, k: Key, rows: i64, now: i64)
        requires
            st.wf(),
            old(self)@.wf(st.count()),
            moment(now),
            key_ok(k),
            rows >= 2,
            old(self).menu is None,
            old(self).gen < u64::MAX,
        ensures
            final(self)@ == old(self)@.channel_keyed(*st, k, rows as int, now),
            final(self)@.wf(st.count()),
    {
        self.dismiss(st, k);
        match k {
            Key::Digit(d) => self.digit_key(st, d, now),
            Key::Up => self.step(st, 1, rows, now),
            Key::Down => self.step(st, -1, rows, now),
            Key::Right => self.step(st, 10, rows, now),
            Key::Left => self.step(st, -10, rows, now),
            Key::Enter => if self.entry.as_str().is_empty() {
                self.select(st, now);
            } else {
                self.commit_entry(st, now);
            },
            Key::Backspace | Key::R => self.recall(st, now),
            Key::Plus => self.set_volume(st, 1, now),
            Key::Minus => self.set_volume(st, -1, now),
            Key::M => self.toggle_mute(st, now),
            Key::I => self.select(st, now),
            Key::G => self.guide_key(st, now),
            Key::Escape => if self.help {
                self.screen_key(st, Key::H);
            } else {
                self.power_down(st, now);
            },
            Key::H | Key::C | Key::S => self.screen_key(st, k),
            Key::Other => {},
        }
    }

    /// A key of the remote control was pressed; `rows` of the guide's grid are on screen.
    pub fn key(&mut self, st: &Station, k: Key, rows: i64, now: i64)
        requires
            st.wf(),
            old(self)@.wf(st.count()),
            moment(now),
            key_ok(k),
            rows >= 2,
            old(self).gen < u64::MAX,
        ensures
            final(self)@ == old(self)@.keyed(*st, k, rows as int, now),
            final(self)@.wf(st.count()),
    {
        if self.power_off.is_some() {
            return;
        }
        match self.menu {
            Some(i) => {
                proof {
                    lemma_menu_keyed_apart(self@, i, k);
                    lemma_menu_apart(self@, self@.menu_keyed(i, k), st.count());
                }
                self.menu_key(i, k);
            },
            None => self.channel_key(st, k, rows, now),
        }
    }

    /// The window's close button behaves like the power button: collapse the raster, then exit
    /// (`tick`). A second press while it's collapsing quits at once.
    pub fn close(&mut self, st: &Station, now: i64)
        requires
            old(self)@.wf(st.count()),
            moment(now),
        ensures
            final(self)@ == old(self)@.closed(now),
            final(self)@.wf(st.count()),
    {
        if self.power_off.is_some() {
            self.emit(Effect::Exit);
        } else {
            self.power_down(st, now);
        }
    }
}

} // verus!
