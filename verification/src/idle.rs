//! What the set does on its own as time passes: typed digits commit, the guide scrolls and
//! rotates its preview, the weather page loads, a bench run tunes.

use vstd::prelude::*;
use crate::num::wrap;
use crate::order::{draw, draw_from, lcg, lcg_next};
use crate::settings::SettingsView;
use crate::station::Station;
use crate::text::{all_digits, digits_value};
use crate::tv::{is_digit, moment, Effect, Tv, TvView, PREVIEW_EVERY};

verus! {

/// A place on the map, as the weather page is told of it.
pub struct Place {
    pub lat: String,
    pub lon: String,
    pub name: String,
}

/// What became of a ZIP lookup.
pub enum Reply {
    /// None was under way, or it is not done.
    Pending,
    Failed,
    Found(Place),
}

impl TvView {
    /// A typed number commits when no digit has come for a second and a half.
    pub open spec fn entry_timed(self, st: Station, now: i64) -> TvView {
        if self.entry.len() > 0 && now - self.entry_at > 1_500_000 {
            self.committed(st, now)
        } else {
            self
        }
    }

    /// The page is pointed at the new place.
    pub open spec fn moved_to(self, p: Place) -> TvView {
        let t = TvView {
            settings: SettingsView {
                weather_lat: p.lat@,
                weather_lon: p.lon@,
                weather_location: p.name@,
                ..self.settings
            },
            ..self
        }.does(Effect::Save);
        if t.web {
            TvView { web_navigated: true, ..t }.does(Effect::Navigate)
        } else {
            t
        }
    }

    /// A ZIP lookup is done: the weather page is pointed at the new place, or the old one is kept.
    pub open spec fn geo_answered(self, r: Reply) -> TvView {
        match r {
            Reply::Pending => self,
            Reply::Failed => TvView { geo: false, ..self }.menu_refreshed(),
            Reply::Found(p) => TvView { geo: false, ..self }.moved_to(p).menu_refreshed(),
        }
    }

    pub open spec fn menu_refreshed(self) -> TvView {
        if self.menu is Some {
            self.does(Effect::Paint)
        } else {
            self
        }
    }

    /// The page loads once the local server has had a moment to start (and any startup ZIP lookup
    /// is done).
    pub open spec fn page_preloaded(self, now: i64) -> TvView {
        if !self.web_navigated && self.web && !self.geo && now > 2_500_000 {
            TvView { web_navigated: true, ..self }.does(Effect::Navigate)
        } else {
            self
        }
    }
}

/// A lookup that failed keeps the place, and another one can be asked for.
pub proof fn a_failed_lookup_keeps_the_place(t: TvView)
    ensures
        t.geo_answered(Reply::Failed).settings == t.settings,
        !t.geo_answered(Reply::Failed).geo,
{
}

/// The channel that the guide previews after `p`: the next one with something on, looking at most
/// `guard` channels on.
pub open spec fn next_preview(st: Station, p: int, guard: nat) -> int
    decreases guard,
{
    if guard == 0 {
        p
    } else {
        let q = if p + 1 > st.count() - 1 {
            1
        } else {
            p + 1
        };
        if !st.dark(q) {
            q
        } else {
            next_preview(st, q, (guard - 1) as nat)
        }
    }
}

impl TvView {
    /// Prevue: the ad box moves on through the channels every eight seconds.
    pub open spec fn preview_rotated(self, st: Station, now: i64) -> TvView {
        if now - self.preview_at > PREVIEW_EVERY {
            let p = next_preview(st, self.preview as int, (st.count() - 1) as nat);
            TvView { preview: p as usize, ..self }.tuned(st, 0, now)
        } else {
            self
        }
    }

    /// Prevue: the grid steps up one row every two seconds.
    pub open spec fn grid_stepped(self, count: int, now: i64) -> TvView {
        if now - self.guide_step_at >= 2_000_000 {
            TvView {
                guide_top: ((self.guide_top + 1) % (count - 1)) as i64,
                guide_step_at: now,
                ..self
            }
        } else {
            self
        }
    }

    /// Interactive guide: the ad box follows the cursor once it has rested for a moment.
    pub open spec fn preview_followed(self, st: Station, now: i64) -> TvView {
        if self.preview != self.guide_sel && !st.dark(self.guide_sel as int) && now
            - self.guide_nav_at > 350_000 {
            TvView { preview: self.guide_sel, ..self }.tuned(st, 0, now)
        } else {
            self
        }
    }

    pub open spec fn guide_idled(self, st: Station, now: i64) -> TvView {
        if self.cur != 0 {
            self
        } else if self.guide_auto {
            self.preview_rotated(st, now).grid_stepped(st.count(), now)
        } else {
            self.preview_followed(st, now)
        }
    }

    /// A frame is due to be dumped, and the program to end.
    pub open spec fn shot_due(self, now: i64) -> bool {
        self.shot_at matches Some(t) && now >= t
    }

    pub open spec fn shot_taken(self) -> TvView {
        TvView { shot_at: None, dump_next: true, ..self }.does(Effect::Paint).does(Effect::Exit)
    }

    /// Automated random tunes at key-repeat speed.
    pub open spec fn benched(self, st: Station, now: i64) -> TvView {
        if self.bench_left > 0 && now >= self.bench_next {
            let left = (self.bench_left - 1) as u32;
            let r = lcg(self.bench_rng);
            let t = TvView {
                bench_left: left,
                dump_next: self.dump_next || left == 0,
                bench_rng: r,
                ..self
            }.tuned(st, (draw(r) as int % st.count()) as usize, now);
            TvView {
                shot_at: if left == 0 {
                    Some((now + 300_000) as i64)  // let the last tune land before reporting
                } else {
                    t.shot_at
                },
                bench_next: (now + 33_000) as i64,
                ..t
            }
        } else {
            self
        }
    }

    /// What the passing of time does by itself.
    pub open spec fn waited(self, st: Station, r: Reply, now: i64) -> TvView {
        self.entry_timed(st, now).geo_answered(r).page_preloaded(now).guide_idled(st, now)
    }

    /// The set before the next frame is looked at.
    pub open spec fn idled(self, st: Station, r: Reply, now: i64) -> TvView {
        let t = self.waited(st, r, now);
        if t.shot_due(now) {
            t.shot_taken()
        } else {
            t.benched(st, now)
        }
    }
}

proof fn lemma_next_preview(st: Station, p: int, guard: nat)
    requires
        2 <= st.count(),
        1 <= p < st.count(),
    ensures
        1 <= next_preview(st, p, guard) < st.count(),
    decreases guard,
{
    if guard > 0 {
        let q = if p + 1 > st.count() - 1 {
            1
        } else {
            p + 1
        };
        lemma_next_preview(st, q, (guard - 1) as nat);
    }
}

/// If any channel has something on, the guide's next preview has.
pub proof fn the_preview_finds_a_picture(st: Station, p: int, c: int, guard: nat)
    requires
        1 <= p < st.count(),
        1 <= c < st.count(),
        !st.dark(c),
        (if c > p {
            c - p
        } else {
            c + st.count() - 1 - p
        }) <= guard,
    ensures
        !st.dark(next_preview(st, p, guard)),
    decreases guard,
{
    if guard > 0 {
        let q = if p + 1 > st.count() - 1 {
            1
        } else {
            p + 1
        };
        if st.dark(q) {
            the_preview_finds_a_picture(st, q, c, (guard - 1) as nat);
        }
    }
}

fn find_preview(st: &Station, from: usize) -> (r: usize)
    requires
        st.wf(),
        1 <= from < st.count(),
    ensures
        r == next_preview(*st, from as int, (st.count() - 1) as nat),
        1 <= r < st.count(),
{
    proof {
        lemma_next_preview(*st, from as int, (st.count() - 1) as nat);
    }
    let n: usize = st.scheds.len() - 1;
    let mut p: usize = from;
    let mut i: usize = 0;
    while i < n
        invariant
            i <= n == st.count() - 1,
            1 <= p <= n,
            st.wf(),
            next_preview(*st, p as int, (n - i) as nat) == next_preview(
                *st,
                from as int,
                n as nat,
            ),
        decreases n - i,
    {
        p = if p >= n { 1 } else { p + 1 };
        if !st.is_dark(p) {
            return p;
        }
        i += 1;
    }
    p
}

impl Tv {
    fn time_entry(&mut self, st: &Station, now: i64)
        requires
            st.wf(),
            old(self)@.wf(st.count()),
            moment(now),
            old(self).gen < u64::MAX,
        ensures
            final(self)@ == old(self)@.entry_timed(*st, now),
            final(self)@.wf(st.count()),
    {
        if !self.entry.as_str().is_empty() && now - self.entry_at > 1_500_000 {
            self.commit_entry(st, now);
        }
    }

    fn move_to(&mut self, p: &Place)
        ensures
            final(self)@ == old(self)@.moved_to(*p),
    {
        self.settings.weather_lat = p.lat.clone();
        self.settings.weather_lon = p.lon.clone();
        self.settings.weather_location = p.name.clone();
        self.emit(Effect::Save);
        if self.web {
            self.web_navigated = true;
            self.emit(Effect::Navigate);
        }
    }

    fn refresh_menu(&mut self)
        ensures
            final(self)@ == old(self)@.menu_refreshed(),
    {
        if self.menu.is_some() {
            self.emit(Effect::Paint);
        }
    }

    fn set_geo(&mut self, on: bool)
        ensures
            final(self)@ == (TvView { geo: on, ..old(self)@ }),
    {
        self.geo = on;
    }

    /// A ZIP lookup is done: point the weather page at the new place.
    pub fn geo_reply(&mut self, r: &Reply)
        ensures
            final(self)@ == old(self)@.geo_answered(*r),
    {
        match r {
            Reply::Pending => {},
            Reply::Failed => {
                self.set_geo(false);
                self.refresh_menu();
            },
            Reply::Found(p) => {
                self.set_geo(false);
                self.move_to(p);
                self.refresh_menu();
            },
        }
    }

    fn preload(&mut self, now: i64)
        ensures
            final(self)@ == old(self)@.page_preloaded(now),
    {
        if !self.web_navigated && self.web && !self.geo && now > 2_500_000 {
            self.web_navigated = true;
            self.emit(Effect::Navigate);
        }
    }

    fn set_preview(&mut self, p: usize)
        ensures
            final(self)@ == (TvView { preview: p, ..old(self)@ }),
    {
        self.preview = p;
    }

    fn rotate_preview(&mut self, st: &Station, now: i64)
        requires
            st.wf(),
            old(self)@.wf(st.count()),
            moment(now),
            old(self).gen < u64::MAX,
        ensures
            final(self)@ == old(self)@.preview_rotated(*st, now),
            final(self)@.wf(st.count()),
    {
        if now - self.preview_at > PREVIEW_EVERY {
            let p = find_preview(st, self.preview);
            self.set_preview(p);
            self.tune(st, 0, now);
        }
    }

    fn step_grid(&mut self, st: &Station, now: i64)
        requires
            st.wf(),
            old(self)@.wf(st.count()),
            moment(now),
        ensures
            final(self)@ == old(self)@.grid_stepped(st.count(), now),
            final(self)@.wf(st.count()),
    {
        if now - self.guide_step_at >= 2_000_000 {
            let n: i128 = st.scheds.len() as i128 - 1;
            self.guide_top = wrap(self.guide_top as i128 + 1, n) as i64;
            self.guide_step_at = now;
        }
    }

    fn follow_cursor(&mut self, st: &Station, now: i64)
        requires
            st.wf(),
            old(self)@.wf(st.count()),
            moment(now),
            old(self).gen < u64::MAX,
        ensures
            final(self)@ == old(self)@.preview_followed(*st, now),
            final(self)@.wf(st.count()),
    {
        if self.preview != self.guide_sel && !st.is_dark(self.guide_sel) && now - self.guide_nav_at
            > 350_000 {
            let p = self.guide_sel;
            self.set_preview(p);
            self.tune(st, 0, now);
        }
    }

    fn guide_idle(&mut self, st: &Station, now: i64)
        requires
            st.wf(),
            old(self)@.wf(st.count()),
            moment(now),
            old(self).gen < u64::MAX,
        ensures
            final(self)@ == old(self)@.guide_idled(*st, now),
            final(self)@.wf(st.count()),
    {
        if self.cur == 0 {
            if self.guide_auto {
                self.rotate_preview(st, now);
                self.step_grid(st, now);
            } else {
                self.follow_cursor(st, now);
            }
        }
    }
}

/// The weather page's part of the set does not bear on the rest.
proof fn lemma_weather_apart(t: TvView, u: TvView, count: int)
    requires
        t.wf(count),
        u == (TvView {
            settings: u.settings,
            geo: u.geo,
            web_navigated: u.web_navigated,
            shot_at: u.shot_at,
            dump_next: u.dump_next,
            bench_left: u.bench_left,
            bench_next: u.bench_next,
            bench_rng: u.bench_rng,
            out: u.out,
            ..t
        }),
    ensures
        u.wf(count),
{
}

proof fn lemma_answer_apart(t: TvView, r: Reply, count: int)
    requires
        t.wf(count),
    ensures
        t.geo_answered(r).wf(count),
        t.geo_answered(r).gen == t.gen,
{
    match r {
        Reply::Pending => {},
        Reply::Failed => {
            lemma_weather_apart(t, t.geo_answered(r), count);
        },
        Reply::Found(p) => {
            let u = TvView { geo: false, ..t };
            lemma_weather_apart(t, u, count);
            lemma_weather_apart(u, u.moved_to(p), count);
            lemma_weather_apart(u.moved_to(p), t.geo_answered(r), count);
        },
    }
}

proof fn lemma_preload_apart(t: TvView, now: i64, count: int)
    requires
        t.wf(count),
    ensures
        t.page_preloaded(now).wf(count),
        t.page_preloaded(now).gen == t.gen,
{
    lemma_weather_apart(t, t.page_preloaded(now), count);
}

impl Tv {
    fn take_shot(&mut self)
        ensures
            final(self)@ == old(self)@.shot_taken(),
    {
        self.shot_at = None;
        self.dump_next = true;
        self.emit(Effect::Paint);
        self.emit(Effect::Exit);
    }

    fn bench_draw(&mut self) -> (r: u64)
        requires
            old(self).bench_left > 0,
        ensures
            r == lcg(old(self).bench_rng),
            final(self)@ == (TvView {
                bench_left: (old(self).bench_left - 1) as u32,
                dump_next: old(self).dump_next || old(self).bench_left == 1,
                bench_rng: r,
                ..old(self)@
            }),
    {
        self.bench_left = self.bench_left - 1;
        if self.bench_left == 0 {
            self.dump_next = true;
        }
        self.bench_rng = lcg_next(self.bench_rng);
        self.bench_rng
    }

    fn bench_wait(&mut self, now: i64)
        requires
            moment(now),
        ensures
            final(self)@ == (TvView {
                shot_at: if old(self).bench_left == 0 {
                    Some((now + 300_000) as i64)
                } else {
                    old(self).shot_at
                },
                bench_next: (now + 33_000) as i64,
                ..old(self)@
            }),
    {
        if self.bench_left == 0 {
            self.shot_at = Some(now + 300_000);
        }
        self.bench_next = now + 33_000;
    }

    fn bench(&mut self, st: &Station, now: i64)
        requires
            st.wf(),
            old(self)@.wf(st.count()),
            moment(now),
            old(self).gen < u64::MAX,
        ensures
            final(self)@ == old(self)@.benched(*st, now),
            final(self)@.wf(st.count()),
    {
        if self.bench_left > 0 && now >= self.bench_next {
            let ghost t0 = self@;
            let r = self.bench_draw();
            let ghost t1 = self@;
            proof {
                lemma_weather_apart(t0, t1, st.count());
            }
            let next: usize = (draw_from(r) % st.scheds.len() as u64) as usize;
            self.tune(st, next, now);
            let ghost t2 = self@;
            proof {
                lemma_tuning_spares_the_bench(t1, *st, next, now);
            }
            self.bench_wait(now);
            proof {
                lemma_weather_apart(t2, self@, st.count());
            }
        }
    }

    fn load_weather(&mut self, st: &Station, r: &Reply, now: i64)
        requires
            old(self)@.wf(st.count()),
        ensures
            final(self)@ == old(self)@.geo_answered(*r).page_preloaded(now),
            final(self)@.wf(st.count()),
            final(self).gen == old(self).gen,
    {
        proof {
            lemma_answer_apart(self@, *r, st.count());
        }
        self.geo_reply(r);
        proof {
            lemma_preload_apart(self@, now, st.count());
        }
        self.preload(now);
    }

    fn wait(&mut self, st: &Station, r: &Reply, now: i64)
        requires
            st.wf(),
            old(self)@.wf(st.count()),
            moment(now),
            old(self).gen < u64::MAX - 2,
        ensures
            final(self)@ == old(self)@.waited(*st, *r, now),
            final(self)@.wf(st.count()),
            final(self).gen <= old(self).gen + 2,
    {
        proof {
            lemma_gen_entry_timed(self@, *st, now);
        }
        self.time_entry(st, now);
        self.load_weather(st, r, now);
        proof {
            lemma_gen_guide_idled(self@, *st, now);
        }
        self.guide_idle(st, now);
    }

    /// Time passes; `r` is what came of a ZIP lookup since. Returns whether the program is to end.
    pub fn idle(&mut self, st: &Station, r: &Reply, now: i64) -> (ends: bool)
        requires
            st.wf(),
            old(self)@.wf(st.count()),
            moment(now),
            old(self).gen < u64::MAX - 2,
        ensures
            final(self)@ == old(self)@.idled(*st, *r, now),
            final(self)@.wf(st.count()),
            ends == old(self)@.waited(*st, *r, now).shot_due(now),
    {
        self.wait(st, r, now);
        let due = match self.shot_at {
            Some(t) => now >= t,
            None => false,
        };
        if due {
            let ghost t3 = self@;
            self.take_shot();
            proof {
                lemma_weather_apart(t3, self@, st.count());
            }
        } else {
            self.bench(st, now);
        }
        due
    }
}

/// Tuning bumps the generation by one.
pub proof fn every_tune_is_a_new_generation(t: TvView, st: Station, ch: usize, now: i64)
    requires
        t.gen < u64::MAX,
    ensures
        t.tuned(st, ch, now).gen == t.gen + 1,
{
}

proof fn lemma_tuning_spares_the_bench(t: TvView, st: Station, ch: usize, now: i64)
    ensures
        t.tuned(st, ch, now).bench_left == t.bench_left,
{
}

proof fn lemma_gen_entry_timed(t: TvView, st: Station, now: i64)
    requires
        t.gen < u64::MAX,
    ensures
        t.gen <= t.entry_timed(st, now).gen <= t.gen + 1,
{
    let u = TvView { entry: Seq::empty(), ..t };
    assert forall|n: usize| #[trigger] u.tuned(st, n, now).gen == t.gen + 1 by {
        every_tune_is_a_new_generation(u, st, n, now);
    }
}

proof fn lemma_gen_guide_idled(t: TvView, st: Station, now: i64)
    requires
        t.gen < u64::MAX,
    ensures
        t.gen <= t.guide_idled(st, now).gen <= t.gen + 1,
{
    assert forall|p: usize| #[trigger] (TvView { preview: p, ..t }).tuned(st, 0, now).gen == t.gen
        + 1 by {
        every_tune_is_a_new_generation(TvView { preview: p, ..t }, st, 0, now);
    }
}

// ---------------------------------------------------------------- what time does

/// Nothing but the clock is at work: no frame is to be dumped and no bench run is on.
pub open spec fn plainly_on(t: TvView, st: Station, now: i64) -> bool {
    &&& st.wf()
    &&& t.wf(st.count())
    &&& moment(now)
    &&& t.shot_at is None
    &&& t.bench_left == 0
}

/// `u` is `t` but for the settings, the page and what is queued.
spec fn page_only(t: TvView, u: TvView) -> bool {
    u == (TvView {
        settings: u.settings,
        geo: u.geo,
        web_navigated: u.web_navigated,
        out: u.out,
        ..t
    })
}

proof fn lemma_answer_only(t: TvView, r: Reply)
    ensures
        page_only(t, t.geo_answered(r)),
{
    let u = TvView { geo: false, ..t };
    assert(page_only(t, u));
    match r {
        Reply::Found(p) => {
            let v = u.moved_to(p);
            assert(page_only(u, v));
            assert(page_only(v, v.menu_refreshed()));
        },
        Reply::Failed => {
            assert(page_only(u, u.menu_refreshed()));
        },
        Reply::Pending => {},
    }
}

/// What comes of a lookup, and the page, leave the channels and the guide alone.
proof fn lemma_page_apart(t: TvView, r: Reply, now: i64)
    ensures
        page_only(t, t.geo_answered(r).page_preloaded(now)),
{
    lemma_answer_only(t, r);
    let v = t.geo_answered(r);
    assert(page_only(v, v.page_preloaded(now)));
}

/// A number that is being typed waits for a second and a half after its last digit: until then it
/// stands, and the channel stays on. Then it is taken: the channel of that number is on, if there is
/// one, and nothing is typed any more.
pub proof fn a_typed_number_waits(t: TvView, st: Station, r: Reply, now: i64)
    requires
        plainly_on(t, st, now),
        t.cur != 0,
        t.entry.len() > 0,
    ensures
        ({
            let u = t.idled(st, r, now);
            &&& now - t.entry_at <= 1_500_000 ==> u.entry == t.entry && u.cur == t.cur && u.gen
                == t.gen
            &&& now - t.entry_at > 1_500_000 ==> {
                &&& u.entry.len() == 0
                &&& digits_value(t.entry) < st.count() ==> u.cur == digits_value(t.entry)
                &&& digits_value(t.entry) >= st.count() ==> u.cur == t.cur
            }
        }),
{
    let a = t.entry_timed(st, now);
    lemma_page_apart(a, r, now);
    let b = a.geo_answered(r).page_preloaded(now);
    if now - t.entry_at > 1_500_000 {
        lemma_commit(t, st, now);
    }
    lemma_guide_idles(b, st, now);
}

proof fn lemma_commit(t: TvView, st: Station, now: i64)
    requires
        st.wf(),
        t.wf(st.count()),
        t.entry.len() > 0,
    ensures
        ({
            let u = t.committed(st, now);
            &&& u.entry.len() == 0
            &&& digits_value(t.entry) < st.count() ==> u.cur == digits_value(t.entry)
            &&& digits_value(t.entry) >= st.count() ==> u.cur == t.cur
            &&& u.shot_at == t.shot_at && u.bench_left == t.bench_left
        }),
{
    let e = TvView { entry: Seq::empty(), ..t };
    assert(is_digit(t.entry[0]));
    assert(all_digits(t.entry)) by {
        assert forall|i: int| 0 <= i < t.entry.len() implies '0' <= #[trigger] t.entry[i] <= '9' by {
            assert(is_digit(t.entry[i]));
        }
    }
    if digits_value(t.entry) < st.count() {
        lemma_tuned_keeps(e, st, digits_value(t.entry) as usize, now);
    }
}

proof fn lemma_tuned_keeps(t: TvView, st: Station, ch: usize, now: i64)
    ensures
        ({
            let u = t.tuned(st, ch, now);
            &&& u.cur == ch
            &&& u.entry == t.entry
            &&& u.shot_at == t.shot_at && u.bench_left == t.bench_left
            &&& u.guide_sel == t.guide_sel
        }),
{
    let black = t.no_video(st, ch) || !t.settings.snow;
    let a = t.guide_tuned(st, ch, now).hushed(ch);
    assert(a.entry == t.entry && a.shot_at == t.shot_at && a.bench_left == t.bench_left
        && a.guide_sel == t.guide_sel);
    let b = a.bumped(ch, now).emptied(black);
    assert(b.entry == t.entry && b.shot_at == t.shot_at && b.bench_left == t.bench_left
        && b.guide_sel == t.guide_sel);
    let c = b.snowed(ch);
    assert(c.entry == t.entry && c.shot_at == t.shot_at && c.bench_left == t.bench_left && c.cur
        == ch && c.guide_sel == t.guide_sel);
}

proof fn lemma_guide_idles(t: TvView, st: Station, now: i64)
    ensures
        ({
            let u = t.guide_idled(st, now);
            &&& t.cur != 0 ==> u == t
            &&& u.cur == t.cur && u.entry == t.entry
            &&& u.shot_at == t.shot_at && u.bench_left == t.bench_left
            &&& u.guide_sel == t.guide_sel
        }),
{
    if t.cur == 0 {
        let p = next_preview(st, t.preview as int, (st.count() - 1) as nat) as usize;
        lemma_tuned_keeps(TvView { preview: p, ..t }, st, 0, now);
        lemma_tuned_keeps(TvView { preview: t.guide_sel, ..t }, st, 0, now);
    }
}

/// On a channel, with nothing typed, time alone changes neither the channel nor the sound nor the
/// guide.
pub proof fn a_channel_stays_on(t: TvView, st: Station, r: Reply, now: i64)
    requires
        plainly_on(t, st, now),
        t.cur != 0,
        t.entry.len() == 0,
    ensures
        ({
            let u = t.idled(st, r, now);
            &&& u.cur == t.cur && u.gen == t.gen && u.preview == t.preview
            &&& u.audio == t.audio && u.last_ch == t.last_ch && u.menu == t.menu
            &&& u.guide_sel == t.guide_sel && u.guide_top == t.guide_top
            &&& u.osd_until == t.osd_until && u.power_off == t.power_off
        }),
{
    lemma_page_apart(t, r, now);
}

/// How many channels the preview goes on from `p`, round the list: nothing is on any of those that
/// it passes.
proof fn lemma_preview_passes(st: Station, p: int, guard: nat) -> (n: int)
    requires
        2 <= st.count(),
        1 <= p < st.count(),
    ensures
        0 <= n <= guard,
        guard > 0 ==> 1 <= n,
        next_preview(st, p, guard) == (p - 1 + n) % (st.count() - 1) + 1,
        forall|k: int|
            1 <= k < n ==> st.dark(#[trigger] ((p - 1 + k) % (st.count() - 1)) + 1),
        n < guard ==> !st.dark(next_preview(st, p, guard)),
    decreases guard,
{
    let m = st.count() - 1;
    if guard == 0 {
        vstd::arithmetic::div_mod::lemma_small_mod((p - 1) as nat, m as nat);
        0
    } else {
        let q = if p + 1 > st.count() - 1 {
            1
        } else {
            p + 1
        };
        assert forall|k: int| #[trigger] ((q - 1 + k) % m) == (p - 1 + (k + 1)) % m by {
            if p + 1 > st.count() - 1 {
                vstd::arithmetic::div_mod::lemma_mod_add_multiples_vanish(k, m);
            }
        }
        vstd::arithmetic::div_mod::lemma_small_mod((q - 1) as nat, m as nat);
        assert((q - 1 + 0) % m == (p - 1 + (0 + 1)) % m);
        if !st.dark(q) {
            1
        } else {
            let n = lemma_preview_passes(st, q, (guard - 1) as nat);
            assert forall|k: int| 1 <= k < n + 1 implies st.dark(
                #[trigger] ((p - 1 + k) % m) + 1,
            ) by {
                let j = k - 1;
                assert((q - 1 + j) % m == (p - 1 + (j + 1)) % m);
            }
            assert((q - 1 + n) % m == (p - 1 + (n + 1)) % m);
            n + 1
        }
    }
}

/// On the Prevue channel the preview stays for eight seconds. Then it goes on to the next channel,
/// round the list, that something is on.
pub proof fn the_preview_goes_on(t: TvView, st: Station, r: Reply, now: i64) -> (n: int)
    requires
        plainly_on(t, st, now),
        t.cur == 0,
        t.guide_auto,
        t.entry.len() == 0,
    ensures
        t.idled(st, r, now).cur == 0,
        t.idled(st, r, now).guide_auto,
        now - t.preview_at <= 8_000_000 ==> t.idled(st, r, now).preview == t.preview,
        now - t.preview_at > 8_000_000 ==> {
            &&& 1 <= n <= st.count() - 1
            &&& t.idled(st, r, now).preview == (t.preview - 1 + n) % (st.count() - 1) + 1
            &&& forall|k: int|
                1 <= k < n ==> st.scheds@[#[trigger] ((t.preview - 1 + k) % (st.count() - 1))
                    + 1].programs@.len() == 0
            &&& n < st.count() - 1 ==> st.scheds@[t.idled(
                st,
                r,
                now,
            ).preview as int].programs@.len() > 0
        },
{
    lemma_page_apart(t, r, now);
    let b = t.geo_answered(r).page_preloaded(now);
    let guard = (st.count() - 1) as nat;
    let n = lemma_preview_passes(st, t.preview as int, guard);
    lemma_next_preview(st, t.preview as int, guard);
    let p = next_preview(st, t.preview as int, guard);
    lemma_tuned_on_guide(TvView { preview: p as usize, ..b }, st, now);
    let m = st.count() - 1;
    if now - t.preview_at > 8_000_000 {
        assert forall|k: int| 1 <= k < n implies st.scheds@[#[trigger] ((t.preview - 1 + k) % m)
            + 1].programs@.len() == 0 by {
            assert(st.dark((t.preview as int - 1 + k) % m + 1));
        }
    }
    n
}

proof fn lemma_tuned_on_guide(t: TvView, st: Station, now: i64)
    requires
        t.cur == 0,
    ensures
        ({
            let u = t.tuned(st, 0, now);
            &&& u.cur == 0 && u.preview == t.preview && u.guide_auto == t.guide_auto
            &&& u.guide_top == t.guide_top && u.guide_step_at == t.guide_step_at
            &&& u.shot_at == t.shot_at && u.bench_left == t.bench_left
            &&& u.guide_sel == t.guide_sel && u.preview_at == now
        }),
{
    lemma_tuned_keeps(t, st, 0, now);
    let black = t.no_video(st, 0) || !t.settings.snow;
    let a = t.guide_tuned(st, 0, now).hushed(0);
    assert(a.preview == t.preview && a.guide_auto == t.guide_auto && a.guide_top == t.guide_top
        && a.guide_step_at == t.guide_step_at && a.preview_at == now);
    let b = a.bumped(0, now).emptied(black);
    assert(b.preview == t.preview && b.guide_auto == t.guide_auto && b.guide_top == t.guide_top
        && b.guide_step_at == t.guide_step_at && b.preview_at == now);
    let c = b.snowed(0);
    assert(c.preview == t.preview && c.guide_auto == t.guide_auto && c.guide_top == t.guide_top
        && c.guide_step_at == t.guide_step_at && c.preview_at == now);
}

/// On the Prevue channel the grid goes up one row every two seconds, round the list; in the
/// interactive guide it stays.
pub proof fn the_grid_goes_up(t: TvView, st: Station, r: Reply, now: i64)
    requires
        plainly_on(t, st, now),
        t.cur == 0,
        t.entry.len() == 0,
    ensures
        ({
            let u = t.idled(st, r, now);
            &&& t.guide_auto && now - t.guide_step_at >= 2_000_000 ==> u.guide_step_at == now
                && u.guide_top == (if t.guide_top == st.count() - 2 {
                0
            } else {
                t.guide_top + 1
            })
            &&& !t.guide_auto || now - t.guide_step_at < 2_000_000 ==> u.guide_top == t.guide_top
                && u.guide_step_at == t.guide_step_at
        }),
{
    lemma_page_apart(t, r, now);
    let b = t.geo_answered(r).page_preloaded(now);
    let p = next_preview(st, t.preview as int, (st.count() - 1) as nat) as usize;
    lemma_tuned_on_guide(TvView { preview: p, ..b }, st, now);
    lemma_tuned_on_guide(TvView { preview: t.guide_sel, ..b }, st, now);
    let m = st.count() - 1;
    if t.guide_top + 1 == m {
        vstd::arithmetic::div_mod::lemma_mod_self_0(m);
    } else {
        vstd::arithmetic::div_mod::lemma_small_mod((t.guide_top + 1) as nat, m as nat);
    }
}

/// In the interactive guide the preview is the channel of the cursor once that has rested for 0.35
/// seconds, if something is on it; the cursor stays where it is.
pub proof fn the_preview_follows_the_cursor(t: TvView, st: Station, r: Reply, now: i64)
    requires
        plainly_on(t, st, now),
        t.cur == 0,
        !t.guide_auto,
        t.entry.len() == 0,
    ensures
        ({
            let u = t.idled(st, r, now);
            let plays = st.scheds@[t.guide_sel as int].programs@.len() > 0;
            &&& u.cur == 0 && !u.guide_auto && u.guide_sel == t.guide_sel
            &&& now - t.guide_nav_at > 350_000 && plays ==> u.preview == t.guide_sel
            &&& now - t.guide_nav_at <= 350_000 || !plays ==> u.preview == t.preview && u.gen
                == t.gen
        }),
{
    lemma_page_apart(t, r, now);
    let b = t.geo_answered(r).page_preloaded(now);
    lemma_tuned_on_guide(TvView { preview: t.guide_sel, ..b }, st, now);
}

/// A place that was found is where the weather page is pointed at and what the settings say; the ZIP
/// code and all else in them stay, and another lookup can be asked for.
pub proof fn a_found_place_is_taken(t: TvView, p: Place)
    ensures
        ({
            let u = t.geo_answered(Reply::Found(p));
            &&& u.settings.weather_lat == p.lat@
            &&& u.settings.weather_lon == p.lon@
            &&& u.settings.weather_location == p.name@
            &&& u.settings.weather_zip == t.settings.weather_zip
            &&& u.settings.channels == t.settings.channels && u.settings.crt == t.settings.crt
            &&& !u.geo
            &&& u.out.len() > t.out.len() && u.out[t.out.len() as int] == Effect::Save
            &&& t.web ==> u.web_navigated && u.out.len() > t.out.len() + 1 && u.out[t.out.len()
                as int + 1] == Effect::Navigate
            &&& u.cur == t.cur
        }),
{
}

/// The page is loaded by itself, once, after 2.5 seconds, unless a lookup is under way.
pub proof fn the_page_loads_by_itself(t: TvView, st: Station, now: i64)
    requires
        plainly_on(t, st, now),
        t.cur != 0,
        t.entry.len() == 0,
    ensures
        ({
            let u = t.idled(st, Reply::Pending, now);
            let due = t.web && !t.web_navigated && !t.geo && now > 2_500_000;
            &&& due ==> u.web_navigated && u.out == t.out.push(Effect::Navigate)
            &&& !due ==> u.web_navigated == t.web_navigated && u.out == t.out
        }),
{
}

/// A frame that is due to be dumped is dumped, and the program ends; before that it does not end on
/// its own.
pub proof fn a_due_shot_ends_the_program(t: TvView, st: Station, r: Reply, now: i64)
    requires
        st.wf(),
        t.wf(st.count()),
        moment(now),
        t.cur != 0,
        t.entry.len() == 0,
        t.bench_left == 0,
    ensures
        ({
            let u = t.idled(st, r, now);
            &&& (t.shot_at matches Some(at) && now >= at) ==> u.dump_next && u.shot_at is None
                && u.out.last() == Effect::Exit
            &&& !(t.shot_at matches Some(at) && now >= at) ==> u.dump_next == t.dump_next
                && u.shot_at == t.shot_at
        }),
{
    lemma_page_apart(t, r, now);
}

/// A bench run tunes at key-repeat speed, the channels as they are drawn; the last one is dumped.
pub proof fn a_bench_run_tunes(t: TvView, st: Station, now: i64)
    requires
        st.wf(),
        t.wf(st.count()),
        moment(now),
        t.bench_left > 0,
    ensures
        ({
            let u = t.benched(st, now);
            &&& now >= t.bench_next ==> {
                &&& u.cur == draw(lcg(t.bench_rng)) as int % st.count()
                &&& u.bench_left == t.bench_left - 1
                &&& u.bench_next == now + 33_000
                &&& t.bench_left == 1 ==> u.dump_next && u.shot_at == Some((now + 300_000) as i64)
                &&& t.bench_left > 1 ==> u.shot_at == t.shot_at
            }
            &&& now < t.bench_next ==> u == t
        }),
{
    let r = lcg(t.bench_rng);
    let a = TvView {
        bench_left: (t.bench_left - 1) as u32,
        dump_next: t.dump_next || t.bench_left == 1,
        bench_rng: r,
        ..t
    };
    let ch = (draw(r) as int % st.count()) as usize;
    vstd::arithmetic::div_mod::lemma_mod_bound(draw(r) as int, st.count());
    lemma_tuned_keeps(a, st, ch, now);
}

} // verus!
