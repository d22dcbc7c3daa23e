//! Switching the set on, and what its remote control can be relied on for.

use vstd::prelude::*;
use crate::settings::Settings;
use crate::station::Station;
use crate::tv::{
    moment, tuning_keeps_the_set_in_order, Cmd, Effect, Key, Sound, Tv, TvView, VOL_DEFAULT,
};

verus! {

/// Per-launch options.
#[derive(Clone, Copy, PartialEq, Eq, Structural, Debug)]
pub struct RunArgs {
    pub bench: u32,
    pub start_ch: usize,
    pub shot_ms: u32,
}

/// `n` held to the range from `lo` to `hi`.
pub open spec fn held(n: int, lo: int, hi: int) -> int {
    if n < lo {
        lo
    } else if n > hi {
        hi
    } else {
        n
    }
}

/// The set as it is switched on at `now`.
pub open spec fn switched_on(
    t: TvView,
    st: Station,
    run: RunArgs,
    nchan: int,
    sound: bool,
    now: int,
) -> bool {
    &&& t.menu is None && t.menu_zip == t.settings.weather_zip
    &&& t.geo == (t.settings.weather_zip.len() > 0 && st.weather is Some)
    &&& !t.web && !t.web_navigated
    &&& t.cur == 1 && t.preview == 1 && t.gen == 0 && t.presented_gen == 0
    &&& t.osd_until == now && t.ready_at == now - 10_000_000
    &&& t.entry.len() == 0 && t.entry_at == now && t.preview_at == now
    &&& t.guide_sel == 1 && t.guide_top == 0 && t.guide_step_at == now && t.guide_nav_at == now
    &&& t.guide_auto && !t.guide_snow_full
    &&& t.last_ch == held(run.start_ch as int, 1, nchan)
    &&& t.vol_until == now && !t.help && t.power_off is None
    &&& t.audio == (if sound {
        Some(Sound { volume: VOL_DEFAULT, muted: false, snow: 0 })
    } else {
        None
    })
    &&& t.bench_left == run.bench && t.bench_next == now + 1_500_000
    &&& t.bench_rng == 0x9E3779B97F4A7C15 && !t.dump_next
    &&& t.shot_at == (if run.shot_ms > 0 {
        Some((now + run.shot_ms * 1_000) as i64)
    } else {
        None
    })
    &&& t.out == (if t.geo {
        seq![Effect::Lookup]
    } else {
        Seq::empty()
    })
}

impl Tv {
    /// Take over from the loading screen: nothing is tuned yet.
    pub fn new(
        settings: Settings,
        st: &Station,
        run: &RunArgs,
        nchan: usize,
        sound: bool,
        now: i64,
    ) -> (r: Tv)
        requires
            st.wf(),
            1 <= nchan < st.count(),
            moment(now),
        ensures
            r@.settings == settings@,
            switched_on(r@, *st, *run, nchan as int, sound, now as int),
            r@.wf(st.count()),
    {
        let menu_zip = settings.weather_zip.clone();
        let geo = !menu_zip.as_str().is_empty() && st.weather.is_some();
        let mut out: Vec<Effect> = Vec::new();
        if geo {
            out.push(Effect::Lookup);
        }
        assert(out@ =~= (if geo {
            seq![Effect::Lookup]
        } else {
            Seq::empty()
        }));
        let audio = if sound {
            Some(Sound { volume: VOL_DEFAULT, muted: false, snow: 0 })
        } else {
            None
        };
        let last_ch = if run.start_ch < 1 {
            1
        } else if run.start_ch > nchan {
            nchan
        } else {
            run.start_ch
        };
        let shot_at = if run.shot_ms > 0 { Some(now + run.shot_ms as i64 * 1_000) } else { None };
        Tv {
            settings,
            menu: None,
            menu_zip,
            geo,
            web: false,
            web_navigated: false,
            cur: 1,
            preview: 1,
            gen: 0,
            presented_gen: 0,
            osd_until: now,
            ready_at: now - 10_000_000,
            entry: String::new(),
            entry_at: now,
            preview_at: now,
            guide_sel: 1,
            guide_top: 0,
            guide_step_at: now,
            guide_nav_at: now,
            guide_auto: true,
            guide_snow_full: false,
            last_ch,
            vol_until: now,
            help: false,
            power_off: None,
            audio,
            bench_left: run.bench,
            bench_next: now + 1_500_000,
            bench_rng: 0x9E3779B97F4A7C15,
            dump_next: false,
            shot_at,
            out,
        }
    }

    /// The channel to start on: the one asked for, or the last there is.
    pub fn start(&mut self, st: &Station, start_ch: usize, web: bool, now: i64)
        requires
            st.wf(),
            old(self)@.wf(st.count()),
            moment(now),
            old(self).gen < u64::MAX,
        ensures
            final(self)@ == (TvView { web, ..old(self)@ }).tuned(
                *st,
                held(start_ch as int, 0, st.count() - 1) as usize,
                now,
            ),
            final(self)@.wf(st.count()),
    {
        self.web = web;
        let last: usize = st.scheds.len() - 1;
        let ch = if start_ch > last { last } else { start_ch };
        self.tune(st, ch, now);
    }

    /// What the outside has to do, in order; the list is empty afterwards.
    pub fn take_effects(&mut self) -> (r: Vec<Effect>)
        ensures
            r@ == old(self)@.out,
            final(self)@ == (TvView { out: Seq::empty(), ..old(self)@ }),
    {
        let mut out: Vec<Effect> = Vec::new();
        std::mem::swap(&mut out, &mut self.out);
        assert(self.out@ =~= Seq::empty());
        out
    }
}

// ---------------------------------------------------------------- the remote control

/// Recall goes back to the previous channel, never to the guide.
pub proof fn recall_never_goes_to_the_guide(t: TvView, st: Station, now: i64)
    requires
        st.wf(),
        t.wf(st.count()),
        moment(now),
    ensures
        1 <= t.recalled(st, now).cur < st.count(),
{
    let u = TvView { entry: Seq::empty(), ..t };
    tuning_keeps_the_set_in_order(u, st, t.last_ch, now);
}

/// Recall, pressed twice on a channel, returns to it.
pub proof fn recall_twice_returns(t: TvView, st: Station, now: i64, later: i64)
    requires
        st.wf(),
        t.wf(st.count()),
        t.cur != 0,
        moment(now),
        moment(later),
    ensures
        t.recalled(st, now).recalled(st, later).cur == t.cur,
{
    let u = TvView { entry: Seq::empty(), ..t };
    if u.last_ch != u.cur {
        tuning_keeps_the_set_in_order(u, st, u.last_ch, now);
        let v = u.tuned(st, u.last_ch, now);
        assert(v.last_ch == t.cur);
        tuning_keeps_the_set_in_order(
            TvView { entry: Seq::empty(), ..v },
            st,
            v.last_ch,
            later,
        );
    }
}

/// The keys that recall the previous channel.
pub open spec fn recalls(k: Key) -> bool {
    k == Key::Backspace || k == Key::R
}

/// Tuning from one channel to another makes the first the one to recall.
proof fn lemma_tuned_remembers(t: TvView, st: Station, ch: usize, now: i64)
    requires
        t.cur != 0,
        ch != t.cur,
    ensures
        t.tuned(st, ch, now).last_ch == t.cur,
        t.tuned(st, ch, now).power_off == t.power_off,
        t.tuned(st, ch, now).menu == t.menu,
{
    let t1 = t.guide_tuned(st, ch, now);
    assert(t1.cur == t.cur && t1.power_off == t.power_off && t1.menu == t.menu);
    let t2 = t1.hushed(ch);
    assert(t2.cur == t.cur && t2.power_off == t.power_off && t2.menu == t.menu);
    let t3 = t2.bumped(ch, now);
    assert(t3.last_ch == t.cur && t3.power_off == t.power_off && t3.menu == t.menu);
    let t4 = t3.emptied(t.no_video(st, ch) || !t.settings.snow);
    assert(t4.last_ch == t.cur && t4.power_off == t.power_off && t4.menu == t.menu);
    let t5 = t4.snowed(ch);
    assert(t5.last_ch == t.cur && t5.power_off == t.power_off && t5.menu == t.menu);
}

proof fn lemma_recall_key(t: TvView, st: Station, k: Key, rows: int, now: i64)
    requires
        st.wf(),
        t.wf(st.count()),
        t.power_off is None,
        t.menu is None,
        t.cur != 0,
        t.last_ch != t.cur,
        recalls(k),
        moment(now),
    ensures
        ({
            let u = t.keyed(st, k, rows, now);
            &&& u.cur == t.last_ch && u.last_ch == t.cur
            &&& u.wf(st.count()) && u.power_off is None && u.menu is None
        }),
{
    let u = TvView { entry: Seq::empty(), ..t.dismissed(k) };
    assert(t.keyed(st, k, rows, now) == t.dismissed(k).recalled(st, now));
    assert(t.dismissed(k).recalled(st, now) == u.tuned(st, u.last_ch, now));
    tuning_keeps_the_set_in_order(u, st, u.last_ch, now);
    lemma_tuned_remembers(u, st, u.last_ch, now);
}

/// Recall exchanges the channel that is on with the one that was on before, and pressed again
/// exchanges them back.
pub proof fn recall_undoes_itself(
    t: TvView,
    st: Station,
    k1: Key,
    k2: Key,
    rows1: int,
    rows2: int,
    now: i64,
    later: i64,
)
    requires
        st.wf(),
        t.wf(st.count()),
        t.power_off is None,
        t.menu is None,
        t.cur != 0,
        t.last_ch != t.cur,
        recalls(k1),
        recalls(k2),
        moment(now),
        moment(later),
    ensures
        ({
            let once = t.keyed(st, k1, rows1, now);
            let twice = once.keyed(st, k2, rows2, later);
            &&& once.cur == t.last_ch && once.last_ch == t.cur
            &&& twice.cur == t.cur && twice.last_ch == t.last_ch
        }),
{
    lemma_recall_key(t, st, k1, rows1, now);
    lemma_recall_key(t.keyed(st, k1, rows1, now), st, k2, rows2, later);
}

/// Without another channel to go back to, recall leaves the channel on.
pub proof fn recall_without_another_channel_stays(
    t: TvView,
    st: Station,
    k: Key,
    rows: int,
    now: i64,
)
    requires
        t.power_off is None,
        t.menu is None,
        t.last_ch == 0 || t.last_ch == t.cur,
        recalls(k),
    ensures
        t.keyed(st, k, rows, now).cur == t.cur,
        t.keyed(st, k, rows, now).last_ch == t.last_ch,
{
}

/// The guide key, pressed twice on a channel, opens the interactive guide and closes it again.
pub proof fn guide_key_closes_what_it_opens(t: TvView, st: Station, now: i64, later: i64)
    requires
        st.wf(),
        t.wf(st.count()),
        t.cur != 0,
        moment(now),
        moment(later),
    ensures
        t.guide_keyed(st, now).cur == 0,
        !t.guide_keyed(st, now).guide_auto,
        t.guide_keyed(st, now).guide_keyed(st, later).cur == t.cur,
{
    let u = TvView { entry: Seq::empty(), ..t };
    tuning_keeps_the_set_in_order(u, st, 0, now);
    let v = u.tuned(st, 0, now);
    assert(v.last_ch == t.cur);
    let g = u.guide_opened(st, now);
    assert(g.last_ch == t.cur && g.cur == 0 && !g.guide_auto);
    assert(g.wf(st.count()));
    tuning_keeps_the_set_in_order(TvView { entry: Seq::empty(), ..g }, st, g.last_ch, later);
}

proof fn lemma_round_trip(x: int, delta: int, n: int)
    requires
        0 <= x < n,
    ensures
        0 <= (x + delta) % n < n,
        ((x + delta) % n - delta) % n == x,
{
    vstd::arithmetic::div_mod::lemma_mod_bound(x + delta, n);
    vstd::arithmetic::div_mod::lemma_sub_mod_noop(x + delta, delta, n);
    vstd::arithmetic::div_mod::lemma_sub_mod_noop((x + delta) % n, delta, n);
    vstd::arithmetic::div_mod::lemma_mod_twice(x + delta, n);
    vstd::arithmetic::div_mod::lemma_small_mod(x as nat, n as nat);
}

/// From anywhere but the interactive guide, tuning does not land in it.
proof fn lemma_tuning_lands(t: TvView, st: Station, ch: usize, now: i64)
    requires
        t.cur != 0 || t.guide_auto,
    ensures
        t.tuned(st, ch, now).cur == ch,
        ch == 0 ==> t.tuned(st, ch, now).guide_auto,
{
    let a = t.guide_tuned(st, ch, now);
    assert(ch == 0 ==> a.guide_auto);
    let b = a.hushed(ch).bumped(ch, now).emptied(t.no_video(st, ch) || !t.settings.snow);
    assert(b.guide_auto == a.guide_auto);
    let c = b.snowed(ch);
    assert(c.guide_auto == a.guide_auto && c.cur == ch);
}

/// A step to another channel, outside the interactive guide.
proof fn lemma_step_lands(t: TvView, st: Station, delta: int, rows: int, now: i64)
    requires
        2 <= st.count() <= isize::MAX,
        t.cur < st.count(),
        t.cur != 0 || t.guide_auto,
    ensures
        t.stepped(st, delta, rows, now).cur == (t.cur + delta) % st.count(),
        t.stepped(st, delta, rows, now).cur != 0 || t.stepped(st, delta, rows, now).guide_auto,
{
    let u = TvView { entry: Seq::empty(), ..t };
    lemma_round_trip(t.cur as int, delta, st.count());
    lemma_tuning_lands(u, st, ((t.cur + delta) % st.count()) as usize, now);
}

/// Channel up and channel down undo each other, round the end of the dial too; only in the
/// interactive guide they move the cursor instead.
pub proof fn channel_steps_undo_each_other(
    t: TvView,
    st: Station,
    delta: int,
    rows: int,
    now: i64,
    later: i64,
)
    requires
        st.wf(),
        t.wf(st.count()),
        t.cur != 0 || t.guide_auto,
        moment(now),
        moment(later),
    ensures
        t.stepped(st, delta, rows, now).stepped(st, -delta, rows, later).cur == t.cur,
{
    lemma_round_trip(t.cur as int, delta, st.count());
    lemma_step_lands(t, st, delta, rows, now);
    lemma_step_lands(t.stepped(st, delta, rows, now), st, -delta, rows, later);
}

/// While the set powers off, the remote control does nothing.
pub proof fn keys_do_nothing_while_powering_off(
    t: TvView,
    st: Station,
    k: Key,
    rows: int,
    pressed: i64,
    now: i64,
)
    requires
        t.power_off is None,
    ensures
        t.powered_down(pressed).keyed(st, k, rows, now) == t.powered_down(pressed),
{
}

/// The effects that touch a file or the network, or end the program.
pub open spec fn is_slow(e: Effect) -> bool {
    e is Save || e is Lookup || e is Exit
}

/// `u` is `t` with further effects, none of them slow.
pub open spec fn stays_quick(t: TvView, u: TvView) -> bool {
    &&& t.out.len() <= u.out.len()
    &&& u.out.take(t.out.len() as int) == t.out
    &&& forall|i: int| t.out.len() <= i < u.out.len() ==> !is_slow(#[trigger] u.out[i])
}

proof fn lemma_quick_step(t: TvView, u: TvView, e: Effect)
    requires
        stays_quick(t, u),
        !is_slow(e),
    ensures
        stays_quick(t, u.does(e)),
{
    assert(u.does(e).out.take(t.out.len() as int) =~= u.out.take(t.out.len() as int));
}

/// Keypress path: snow up, tell the decode side, return. Tuning touches no file.
pub proof fn tuning_touches_no_file(t: TvView, st: Station, ch: usize, now: i64)
    ensures
        stays_quick(t, t.tuned(st, ch, now)),
{
    let a = t.guide_tuned(st, ch, now);
    assert(a.out.take(t.out.len() as int) =~= t.out);
    lemma_quick_step(t, a, Effect::ClearRing);
    let b = a.hushed(ch).bumped(ch, now);
    assert(stays_quick(t, b));
    lemma_quick_step(t, b, Effect::ForgetLast);
    lemma_quick_step(t, b, Effect::ClearQueue);
    lemma_quick_step(t, b.does(Effect::ForgetLast), Effect::ClearQueue);
    let black = t.no_video(st, ch) || !t.settings.snow;
    let c = b.emptied(black);
    assert(stays_quick(t, c));
    lemma_quick_step(t, c, Effect::PaintSnow);
    let d = c.snowed(ch);
    assert(stays_quick(t, d));
    if t.no_video(st, ch) {
        lemma_quick_step(t, d, Effect::Send(Cmd::Stop));
        lemma_quick_step(t, d.does(Effect::Send(Cmd::Stop)), Effect::Navigate);
    } else {
        lemma_quick_step(
            t,
            d,
            Effect::Send(
                Cmd::Tune {
                    src: t.source_for(ch),
                    gen: d.gen,
                    guide: ch == 0 && d.guide_auto && d.settings.music,
                },
            ),
        );
    }
}

/// Any key dismisses the legend, then acts as it would without it; but for the two that put the
/// legend away themselves.
pub proof fn any_key_dismisses_the_legend(t: TvView, st: Station, k: Key, rows: int, now: i64)
    requires
        t.power_off is None,
        t.menu is None,
        k != Key::H,
        k != Key::Escape,
    ensures
        t.keyed(st, k, rows, now) == (TvView { help: false, ..t }).keyed(st, k, rows, now),
{
}

/// Escape puts the legend away before it powers off.
pub proof fn escape_closes_the_legend_first(t: TvView, st: Station, rows: int, now: i64, later: i64)
    requires
        t.power_off is None,
        t.menu is None,
        t.help,
    ensures
        t.keyed(st, Key::Escape, rows, now).power_off is None,
        !t.keyed(st, Key::Escape, rows, now).help,
        t.keyed(st, Key::Escape, rows, now).keyed(st, Key::Escape, rows, later).power_off is Some,
{
}

/// Closing the window powers off; closing it again while it collapses quits at once.
pub proof fn closing_twice_quits(t: TvView, now: i64, later: i64)
    requires
        t.power_off is None,
    ensures
        t.closed(now).power_off == Some(now),
        t.closed(now).closed(later).out == t.closed(now).out.push(Effect::Exit),
{
}

/// Nothing of a channel without pictures is left to wait for: the decode side is stopped, and told
/// of no source.
pub proof fn dead_channels_stop_the_decoder(t: TvView, st: Station, ch: usize, now: i64)
    requires
        t.no_video(st, ch),
    ensures
        t.tuned(st, ch, now).out.contains(Effect::Send(Cmd::Stop)),
{
    let u = t.guide_tuned(st, ch, now).hushed(ch).bumped(ch, now).emptied(true).snowed(ch);
    let v = t.tuned(st, ch, now);
    let at = u.out.len() as int;
    assert(v.out[at] == Effect::Send(Cmd::Stop));
}

/// A number held to a range is in it, and is itself where it was in it already; else it is the end
/// that it was beyond.
pub proof fn held_numbers_are_in_range(n: int, lo: int, hi: int)
    requires
        lo <= hi,
    ensures
        lo <= held(n, lo, hi) <= hi,
        lo <= n <= hi ==> held(n, lo, hi) == n,
        n < lo ==> held(n, lo, hi) == lo,
        n > hi ==> held(n, lo, hi) == hi,
{
}

/// A set that was just switched on shows nothing of its own: no number, no banner, no volume, no
/// legend and no menu. The guide goes by itself, and a shot is due as many milliseconds later as was
/// asked for, if any.
pub proof fn a_new_set_shows_nothing(
    t: TvView,
    st: Station,
    run: RunArgs,
    nchan: int,
    sound: bool,
    now: int,
    later: int,
    w: int,
    h: int,
)
    requires
        switched_on(t, st, run, nchan, sound, now),
        moment(now as i64),
        i64::MIN <= now <= i64::MAX,
        now <= later,
    ensures
        ({
            let l = t.layers(st, later, w, h);
            &&& !l.number && !l.banner && !l.volume && !l.mute && !l.help && !l.menu && !l.guide
        }),
        t.guide_auto,
        1 <= nchan ==> 1 <= t.last_ch <= nchan,
        1 <= run.start_ch <= nchan ==> t.last_ch == run.start_ch,
        run.shot_ms == 0 ==> t.shot_at is None,
        run.shot_ms > 0 ==> t.shot_at is Some && t.shot_at->0 - now == run.shot_ms * 1_000,
        t.bench_left == run.bench,
        sound <==> t.audio is Some,
        st.weather is None ==> t.out.len() == 0,
{
}

} // verus!
