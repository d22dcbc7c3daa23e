//! What the remote control promises: what each of its keys does to the set, said of the channel
//! that is on, the number that is typed, the guide, the sound and the menu.

use vstd::prelude::*;
use vstd::utf8::encode_utf8;
use crate::settings::{MENU_LEN, MENU_ZIP};
use crate::station::Station;
use crate::text::{
    all_digits, decimal_padded, decimals_grow, digits_value, padded_decimals_read_back,
};
use crate::tv::{digits_for, is_digit, moment, tuning_keeps_the_set_in_order, Cmd, Effect, Key, TvView};

verus! {

/// The set is on, in order, and shows no menu, so that keys go to the channels.
pub open spec fn listens(t: TvView, st: Station, now: i64) -> bool {
    &&& st.wf()
    &&& t.wf(st.count())
    &&& moment(now)
    &&& t.power_off is None
    &&& t.menu is None
}

// ---------------------------------------------------------------- tuning

/// Tuning puts the channel on, shows its banner for three seconds, makes the frames on their way
/// stale, and remembers the channel left for Recall, but never the guide.
pub proof fn tuning_puts_the_channel_on(t: TvView, st: Station, ch: usize, now: i64)
    requires
        st.wf(),
        t.wf(st.count()),
        ch < st.count(),
        moment(now),
    ensures
        t.tuned(st, ch, now).cur == ch,
        t.tuned(st, ch, now).osd_until == now + 3_000_000,
        t.gen < u64::MAX ==> t.tuned(st, ch, now).gen == t.gen + 1,
        t.cur != 0 && ch != t.cur ==> t.tuned(st, ch, now).last_ch == t.cur,
        t.cur == 0 || ch == t.cur ==> t.tuned(st, ch, now).last_ch == t.last_ch,
{
    tuning_keeps_the_set_in_order(t, st, ch, now);
    lemma_tuned_fields(t, st, ch, now);
}

/// What tuning leaves alone: the settings, the menu, the legend, what is typed, the power, and the
/// sound's volume.
pub proof fn tuning_leaves_the_rest(t: TvView, st: Station, ch: usize, now: i64)
    requires
        st.wf(),
        t.wf(st.count()),
        ch < st.count(),
        moment(now),
    ensures
        t.tuned(st, ch, now).settings == t.settings,
        t.tuned(st, ch, now).menu == t.menu,
        t.tuned(st, ch, now).menu_zip == t.menu_zip,
        t.tuned(st, ch, now).help == t.help,
        t.tuned(st, ch, now).entry == t.entry,
        t.tuned(st, ch, now).power_off == t.power_off,
        t.tuned(st, ch, now).guide_sel == t.guide_sel,
        t.tuned(st, ch, now).vol_until == t.vol_until,
        t.tuned(st, ch, now).audio is Some <==> t.audio is Some,
        t.audio matches Some(a) ==> t.tuned(st, ch, now).audio->0.volume == a.volume && t.tuned(
            st,
            ch,
            now,
        ).audio->0.muted == a.muted,
{
    lemma_tuned_fields(t, st, ch, now);
}

/// Coming to the guide from a channel it scrolls by itself, its first row the channel that was on;
/// the preview is the last channel with pictures.
pub proof fn the_guide_starts_at_the_preview(t: TvView, st: Station, ch: usize, now: i64)
    requires
        st.wf(),
        t.wf(st.count()),
        ch < st.count(),
        moment(now),
    ensures
        ch == 0 && t.cur != 0 ==> t.tuned(st, ch, now).guide_auto && t.tuned(st, ch, now).guide_top
            == t.preview - 1,
        ch != 0 || t.cur == 0 ==> t.tuned(st, ch, now).guide_auto == t.guide_auto && t.tuned(
            st,
            ch,
            now,
        ).guide_top == t.guide_top,
        ch != 0 && st.weather != Some(ch) && st.scheds@[ch as int].programs@.len() > 0 ==> t.tuned(
            st,
            ch,
            now,
        ).preview == ch,
        ch == 0 || st.weather == Some(ch) || st.scheds@[ch as int].programs@.len() == 0
            ==> t.tuned(st, ch, now).preview == t.preview,
{
    lemma_tuned_fields(t, st, ch, now);
}

/// Where pictures are to come, the last thing that the outside hears is whose: the channel's own,
/// or on the guide those of the preview, tagged as the newest.
pub proof fn the_decoder_is_told_the_channel(t: TvView, st: Station, ch: usize, now: i64)
    requires
        st.wf(),
        t.wf(st.count()),
        ch < st.count(),
        moment(now),
        st.weather != Some(ch),
        st.scheds@[(if ch == 0 {
            t.preview
        } else {
            ch
        }) as int].programs@.len() > 0,
    ensures
        t.tuned(st, ch, now).out.len() > t.out.len(),
        t.tuned(st, ch, now).out.take(t.out.len() as int) == t.out,
        t.tuned(st, ch, now).out.last() matches Effect::Send(Cmd::Tune { src, gen, guide }) && {
            &&& gen == t.tuned(st, ch, now).gen
            &&& ch != 0 ==> src == ch && !guide
            &&& ch == 0 ==> src == t.preview && guide == (t.tuned(st, ch, now).guide_auto
                && t.settings.music)
        },
        t.tuned(st, ch, now).ready_at == now + 3_600_000_000,
{
    lemma_tuned_fields(t, st, ch, now);
    lemma_tuned_out(t, st, ch, now);
}

/// Where no pictures come, the decoder is told to stop and not to tune: the page of the weather
/// shows after 0.65 seconds, and a channel without programs stays snow for a day.
pub proof fn a_channel_without_pictures_stops_the_decoder(
    t: TvView,
    st: Station,
    ch: usize,
    now: i64,
)
    requires
        st.wf(),
        t.wf(st.count()),
        ch < st.count(),
        moment(now),
        st.weather == Some(ch) || st.scheds@[(if ch == 0 {
            t.preview
        } else {
            ch
        }) as int].programs@.len() == 0,
    ensures
        t.tuned(st, ch, now).out.take(t.out.len() as int) == t.out,
        t.tuned(st, ch, now).out.skip(t.out.len() as int).contains(Effect::Send(Cmd::Stop)),
        t.tuned(st, ch, now).out.skip(t.out.len() as int).contains(Effect::ForgetLast),
        forall|i: int|
            t.out.len() <= i < t.tuned(st, ch, now).out.len() ==> !(#[trigger] t.tuned(
                st,
                ch,
                now,
            ).out[i] matches Effect::Send(Cmd::Tune { src, gen, guide })),
        t.tuned(st, ch, now).ready_at == (if st.weather == Some(ch) {
            now + 650_000
        } else {
            now + 86_400_000_000
        }),
        t.web ==> t.tuned(st, ch, now).web_navigated,
        t.web && !t.web_navigated ==> t.tuned(st, ch, now).out.last() == Effect::Navigate,
{
    lemma_tuned_fields(t, st, ch, now);
    lemma_tuned_out(t, st, ch, now);
}

/// Whatever is tuned, the old channel's frames go; and its sound too, but on the guide the music
/// plays on. Between channels the sound is snow.
pub proof fn the_old_channel_goes(t: TvView, st: Station, ch: usize, now: i64)
    requires
        st.wf(),
        t.wf(st.count()),
        ch < st.count(),
        moment(now),
    ensures
        t.tuned(st, ch, now).out.take(t.out.len() as int) == t.out,
        t.tuned(st, ch, now).out.skip(t.out.len() as int).contains(Effect::ClearQueue),
        t.audio is Some && !(t.cur == 0 && ch == 0) ==> t.tuned(st, ch, now).out.skip(
            t.out.len() as int,
        ).contains(Effect::ClearRing) && t.tuned(st, ch, now).audio->0.snow == 255,
        t.audio is Some && t.cur == 0 && ch == 0 ==> t.tuned(st, ch, now).audio->0.snow == 0,
        t.cur != 0 ==> t.tuned(st, ch, now).out.skip(t.out.len() as int).contains(
            Effect::PaintSnow,
        ),
        !t.settings.snow ==> t.tuned(st, ch, now).out.skip(t.out.len() as int).contains(
            Effect::ForgetLast,
        ),
        t.tuned(st, ch, now).guide_snow_full == (ch == 0 && t.cur != 0),
{
    lemma_tuned_fields(t, st, ch, now);
    lemma_tuned_out(t, st, ch, now);
}

/// What a step of tuning changes, and what it leaves.
proof fn lemma_guide_step(t: TvView, st: Station, ch: usize, now: i64)
    ensures
        ({
            let u = t.guide_tuned(st, ch, now);
            let comes = ch == 0 && t.cur != 0;
            &&& u == (TvView {
                preview_at: u.preview_at,
                guide_top: u.guide_top,
                guide_step_at: u.guide_step_at,
                guide_auto: u.guide_auto,
                preview: u.preview,
                ..t
            })
            &&& u.guide_auto == (comes || t.guide_auto)
            &&& comes ==> u.guide_top == (t.preview - 1) as i64
            &&& !comes ==> u.guide_top == t.guide_top
            &&& ch == 0 || t.no_video(st, ch) ==> u.preview == t.preview
            &&& ch != 0 && !t.no_video(st, ch) ==> u.preview == ch
        }),
{
}

proof fn lemma_hush_step(t: TvView, ch: usize)
    ensures
        ({
            let u = t.hushed(ch);
            let stays = t.cur == 0 && ch == 0;
            &&& u == (TvView { audio: u.audio, out: u.out, ..t })
            &&& u.audio is Some <==> t.audio is Some
            &&& t.audio matches Some(a) ==> {
                &&& u.audio->0.volume == a.volume
                &&& u.audio->0.muted == a.muted
                &&& stays ==> u.audio->0.snow == 0
                &&& !stays ==> u.audio->0.snow == 255
            }
            &&& t.audio is Some && !stays ==> u.out == t.out + seq![Effect::ClearRing]
            &&& t.audio is None || stays ==> u.out == t.out
        }),
{
    assert(t.out.push(Effect::ClearRing) =~= t.out + seq![Effect::ClearRing]);
}

proof fn lemma_empty_step(t: TvView, black: bool)
    ensures
        ({
            let u = t.emptied(black);
            &&& u == (TvView { out: u.out, ..t })
            &&& black ==> u.out == t.out + seq![Effect::ForgetLast, Effect::ClearQueue]
            &&& !black ==> u.out == t.out + seq![Effect::ClearQueue]
        }),
{
    assert(t.out.push(Effect::ForgetLast).push(Effect::ClearQueue) =~= t.out + seq![
        Effect::ForgetLast,
        Effect::ClearQueue,
    ]);
    assert(t.out.push(Effect::ClearQueue) =~= t.out + seq![Effect::ClearQueue]);
}

proof fn lemma_snow_step(t: TvView, ch: usize)
    ensures
        ({
            let u = t.snowed(ch);
            &&& u == (TvView { cur: ch, guide_snow_full: u.guide_snow_full, out: u.out, ..t })
            &&& u.guide_snow_full == (ch == 0 && t.cur != 0)
            &&& t.cur != 0 ==> u.out == t.out + seq![Effect::PaintSnow]
            &&& t.cur == 0 ==> u.out == t.out
        }),
{
    assert(t.out.push(Effect::PaintSnow) =~= t.out + seq![Effect::PaintSnow]);
}

proof fn lemma_stop_step(t: TvView, is_weather: bool, now: i64)
    requires
        moment(now),
    ensures
        ({
            let u = t.stopped(is_weather, now);
            &&& u == (TvView {
                ready_at: u.ready_at,
                web_navigated: u.web_navigated,
                out: u.out,
                ..t
            })
            &&& is_weather ==> u.ready_at == now + 650_000
            &&& !is_weather ==> u.ready_at == now + 86_400_000_000
            &&& u.web_navigated == (t.web_navigated || t.web)
            &&& t.web && !t.web_navigated ==> u.out == t.out + seq![
                Effect::Send(Cmd::Stop),
                Effect::Navigate,
            ]
            &&& !(t.web && !t.web_navigated) ==> u.out == t.out + seq![Effect::Send(Cmd::Stop)]
        }),
{
    assert(t.out.push(Effect::Send(Cmd::Stop)).push(Effect::Navigate) =~= t.out + seq![
        Effect::Send(Cmd::Stop),
        Effect::Navigate,
    ]);
    assert(t.out.push(Effect::Send(Cmd::Stop)) =~= t.out + seq![Effect::Send(Cmd::Stop)]);
}

proof fn lemma_steps(t: TvView, st: Station, ch: usize, now: i64)
    requires
        moment(now),
    ensures
        ({
            let dead = t.no_video(st, ch);
            let t5 = t.guide_tuned(st, ch, now).hushed(ch).bumped(ch, now).emptied(
                dead || !t.settings.snow,
            ).snowed(ch);
            let u = t.tuned(st, ch, now);
            &&& dead ==> u == t5.stopped(st.weather == Some(ch), now)
            &&& !dead ==> u == (TvView { out: u.out, ..t5 }) && u.out == t5.out + seq![
                Effect::Send(
                    Cmd::Tune {
                        src: t.source_for(ch),
                        gen: u.gen,
                        guide: ch == 0 && u.guide_auto && u.settings.music,
                    },
                ),
            ]
        }),
{
    let dead = t.no_video(st, ch);
    let t5 = t.guide_tuned(st, ch, now).hushed(ch).bumped(ch, now).emptied(
        dead || !t.settings.snow,
    ).snowed(ch);
    if !dead {
        let e = Effect::Send(
            Cmd::Tune {
                src: t.source_for(ch),
                gen: t5.gen,
                guide: ch == 0 && t5.guide_auto && t5.settings.music,
            },
        );
        assert(t5.out.push(e) =~= t5.out + seq![e]);
    }
}

proof fn lemma_tuned_fields(t: TvView, st: Station, ch: usize, now: i64)
    requires
        st.wf(),
        t.wf(st.count()),
        ch < st.count(),
        moment(now),
    ensures
        ({
            let u = t.tuned(st, ch, now);
            let dead = t.no_video(st, ch);
            &&& u.cur == ch
            &&& u.osd_until == now + 3_000_000
            &&& u.gen == (t.gen + 1) as u64
            &&& u.last_ch == (if ch != t.cur && t.cur != 0 {
                t.cur
            } else {
                t.last_ch
            })
            &&& u.settings == t.settings && u.menu == t.menu && u.menu_zip == t.menu_zip
            &&& u.help == t.help && u.entry == t.entry && u.power_off == t.power_off
            &&& u.guide_sel == t.guide_sel && u.vol_until == t.vol_until
            &&& u.geo == t.geo && u.web == t.web && u.dump_next == t.dump_next
            &&& u.guide_auto == (if ch == 0 && t.cur != 0 {
                true
            } else {
                t.guide_auto
            })
            &&& u.guide_top == (if ch == 0 && t.cur != 0 {
                (t.preview - 1) as i64
            } else {
                t.guide_top
            })
            &&& u.preview == (if ch == 0 || dead {
                t.preview
            } else {
                ch
            })
            &&& u.guide_snow_full == (ch == 0 && t.cur != 0)
            &&& u.ready_at == (if !dead {
                now + 3_600_000_000
            } else if st.weather == Some(ch) {
                now + 650_000
            } else {
                now + 86_400_000_000
            })
            &&& u.web_navigated == (t.web_navigated || (dead && t.web))
            &&& u.audio is Some <==> t.audio is Some
            &&& t.audio matches Some(a) ==> {
                &&& u.audio->0.volume == a.volume
                &&& u.audio->0.muted == a.muted
                &&& u.audio->0.snow == (if t.cur == 0 && ch == 0 {
                    0u32
                } else {
                    255u32
                })
            }
        }),
{
    let black = t.no_video(st, ch) || !t.settings.snow;
    let t1 = t.guide_tuned(st, ch, now);
    let t2 = t1.hushed(ch);
    let t3 = t2.bumped(ch, now);
    let t4 = t3.emptied(black);
    let t5 = t4.snowed(ch);
    lemma_guide_step(t, st, ch, now);
    lemma_hush_step(t1, ch);
    lemma_empty_step(t3, black);
    lemma_snow_step(t4, ch);
    lemma_stop_step(t5, st.weather == Some(ch), now);
    lemma_steps(t, st, ch, now);
}

/// What tuning queues, in order: the sound, the frame on screen, the frames on their way, snow, and
/// what the decoder hears.
spec fn queued(ring: bool, black: bool, leaves: bool, told: Seq<Effect>) -> Seq<Effect> {
    (if ring {
        seq![Effect::ClearRing]
    } else {
        Seq::empty()
    }) + (if black {
        seq![Effect::ForgetLast, Effect::ClearQueue]
    } else {
        seq![Effect::ClearQueue]
    }) + (if leaves {
        seq![Effect::PaintSnow]
    } else {
        Seq::empty()
    }) + told
}

proof fn lemma_queued(ring: bool, black: bool, leaves: bool, told: Seq<Effect>)
    requires
        told.len() > 0,
    ensures
        ({
            let q = queued(ring, black, leaves, told);
            &&& q.len() > 0
            &&& q.last() == told.last()
            &&& q.contains(Effect::ClearQueue)
            &&& ring ==> q.contains(Effect::ClearRing)
            &&& black ==> q.contains(Effect::ForgetLast)
            &&& leaves ==> q.contains(Effect::PaintSnow)
            &&& q.contains(told[0])
            &&& forall|i: int|
                0 <= i < q.len() ==> told.contains(#[trigger] q[i]) || !(q[i] is Send)
        }),
{
    let q = queued(ring, black, leaves, told);
    let n = q.len() - told.len();
    let x: int = if ring {
        1
    } else {
        0
    };
    let y: int = if black {
        x + 1
    } else {
        x
    };
    assert(ring ==> q[0] == Effect::ClearRing);
    assert(black ==> q[x] == Effect::ForgetLast);
    assert(q[y] == Effect::ClearQueue);
    assert(leaves ==> q[y + 1] == Effect::PaintSnow);
    assert(q[n] == told[0]);
    assert(q[q.len() - 1] == told.last());
    assert forall|i: int| 0 <= i < q.len() implies told.contains(#[trigger] q[i]) || !(
    q[i] is Send) by {
        if i >= n {
            assert(q[i] == told[i - n]);
        }
    }
}

/// What the decoder, and the page, are told.
spec fn told(t: TvView, st: Station, ch: usize, now: i64) -> Seq<Effect> {
    let u = t.tuned(st, ch, now);
    if !t.no_video(st, ch) {
        seq![
            Effect::Send(
                Cmd::Tune {
                    src: t.source_for(ch),
                    gen: u.gen,
                    guide: ch == 0 && u.guide_auto && t.settings.music,
                },
            ),
        ]
    } else if t.web && !t.web_navigated {
        seq![Effect::Send(Cmd::Stop), Effect::Navigate]
    } else {
        seq![Effect::Send(Cmd::Stop)]
    }
}

proof fn lemma_tuned_queue(t: TvView, st: Station, ch: usize, now: i64)
    requires
        moment(now),
    ensures
        t.tuned(st, ch, now).out == t.out + queued(
            t.audio is Some && !(t.cur == 0 && ch == 0),
            t.no_video(st, ch) || !t.settings.snow,
            t.cur != 0,
            told(t, st, ch, now),
        ),
{
    let dead = t.no_video(st, ch);
    let black = dead || !t.settings.snow;
    let ring = t.audio is Some && !(t.cur == 0 && ch == 0);
    let t1 = t.guide_tuned(st, ch, now);
    let t2 = t1.hushed(ch);
    let t3 = t2.bumped(ch, now);
    let t4 = t3.emptied(black);
    let t5 = t4.snowed(ch);
    let u = t.tuned(st, ch, now);
    let say = told(t, st, ch, now);
    lemma_guide_step(t, st, ch, now);
    lemma_hush_step(t1, ch);
    lemma_empty_step(t3, black);
    lemma_snow_step(t4, ch);
    lemma_stop_step(t5, st.weather == Some(ch), now);
    lemma_steps(t, st, ch, now);
    assert(u.out == t5.out + say);
    let a = if ring {
        seq![Effect::ClearRing]
    } else {
        Seq::empty()
    };
    let b = if black {
        seq![Effect::ForgetLast, Effect::ClearQueue]
    } else {
        seq![Effect::ClearQueue]
    };
    let c = if t.cur != 0 {
        seq![Effect::PaintSnow]
    } else {
        Seq::empty()
    };
    assert(t3.out =~= t.out + a);
    assert(t4.out == t3.out + b);
    assert(t5.out =~= t4.out + c);
    lemma_concat(t.out, a, b, c, say);
}

proof fn lemma_concat(
    s: Seq<Effect>,
    a: Seq<Effect>,
    b: Seq<Effect>,
    c: Seq<Effect>,
    d: Seq<Effect>,
)
    ensures
        s + a + b + c + d == s + (a + b + c + d),
{
    assert(s + a + b + c + d =~= s + (a + b + c + d));
}

proof fn lemma_tuned_out(t: TvView, st: Station, ch: usize, now: i64)
    requires
        moment(now),
    ensures
        ({
            let u = t.tuned(st, ch, now);
            let dead = t.no_video(st, ch);
            let tail = u.out.skip(t.out.len() as int);
            let say = told(t, st, ch, now);
            &&& u.out.take(t.out.len() as int) == t.out
            &&& u.out.len() > t.out.len()
            &&& u.out.last() == say.last()
            &&& tail.contains(Effect::ClearQueue)
            &&& t.audio is Some && !(t.cur == 0 && ch == 0) ==> tail.contains(Effect::ClearRing)
            &&& dead || !t.settings.snow ==> tail.contains(Effect::ForgetLast)
            &&& t.cur != 0 ==> tail.contains(Effect::PaintSnow)
            &&& tail.contains(say[0])
            &&& forall|i: int|
                t.out.len() <= i < u.out.len() ==> say.contains(#[trigger] u.out[i]) || !(
                u.out[i] is Send)
        }),
{
    let u = t.tuned(st, ch, now);
    let ring = t.audio is Some && !(t.cur == 0 && ch == 0);
    let black = t.no_video(st, ch) || !t.settings.snow;
    let say = told(t, st, ch, now);
    let q = queued(ring, black, t.cur != 0, say);
    lemma_tuned_queue(t, st, ch, now);
    lemma_queued(ring, black, t.cur != 0, say);
    assert(u.out.take(t.out.len() as int) =~= t.out);
    assert(u.out.skip(t.out.len() as int) =~= q);
    assert(u.out[u.out.len() - 1] == q[q.len() - 1]);
    assert forall|i: int| t.out.len() <= i < u.out.len() implies say.contains(#[trigger] u.out[i])
        || !(u.out[i] is Send) by {
        assert(u.out[i] == q[i - t.out.len()]);
    }
}

// ---------------------------------------------------------------- the keys

/// Enter with nothing typed: on the Prevue channel it tunes what is previewing, in the interactive
/// guide the row of the cursor, and on a channel it brings up the banner and leaves the channel on.
pub proof fn enter_tunes_what_the_guide_shows(t: TvView, st: Station, rows: int, now: i64)
    requires
        listens(t, st, now),
        t.entry.len() == 0,
    ensures
        t.cur == 0 && t.guide_auto ==> t.keyed(st, Key::Enter, rows, now).cur == t.preview,
        t.cur == 0 && !t.guide_auto ==> t.keyed(st, Key::Enter, rows, now).cur == t.guide_sel,
        t.cur != 0 ==> t.keyed(st, Key::Enter, rows, now).cur == t.cur,
        t.cur != 0 ==> t.keyed(st, Key::Enter, rows, now).gen == t.gen,
        t.keyed(st, Key::Enter, rows, now).osd_until == now + 3_000_000,
{
    let u = TvView { help: false, ..t };
    assert(u.wf(st.count()));
    lemma_tuned_fields(u, st, t.preview, now);
    lemma_tuned_fields(u, st, t.guide_sel, now);
}

/// The info key does what Enter does with nothing typed, whatever is typed.
pub proof fn info_tunes_what_the_guide_shows(t: TvView, st: Station, rows: int, now: i64)
    requires
        listens(t, st, now),
    ensures
        t.cur == 0 && t.guide_auto ==> t.keyed(st, Key::I, rows, now).cur == t.preview,
        t.cur == 0 && !t.guide_auto ==> t.keyed(st, Key::I, rows, now).cur == t.guide_sel,
        t.cur != 0 ==> t.keyed(st, Key::I, rows, now).cur == t.cur,
        t.cur != 0 ==> t.keyed(st, Key::I, rows, now).gen == t.gen,
        t.keyed(st, Key::I, rows, now).osd_until == now + 3_000_000,
        t.keyed(st, Key::I, rows, now).entry == t.entry,
{
    let u = TvView { help: false, ..t };
    assert(u.wf(st.count()));
    lemma_tuned_fields(u, st, t.preview, now);
    lemma_tuned_fields(u, st, t.guide_sel, now);
}

/// Enter takes a number that is being typed: the channel of that number is on, if there is one, and
/// otherwise the one that was; either way nothing is typed any more.
pub proof fn enter_takes_the_number(t: TvView, st: Station, rows: int, now: i64)
    requires
        listens(t, st, now),
        t.entry.len() > 0,
    ensures
        digits_value(t.entry) < st.count() ==> t.keyed(st, Key::Enter, rows, now).cur
            == digits_value(t.entry),
        digits_value(t.entry) >= st.count() ==> t.keyed(st, Key::Enter, rows, now).cur == t.cur
            && t.keyed(st, Key::Enter, rows, now).gen == t.gen,
        t.keyed(st, Key::Enter, rows, now).entry.len() == 0,
{
    lemma_committed(TvView { help: false, ..t }, st, now);
}

proof fn lemma_committed(t: TvView, st: Station, now: i64)
    requires
        st.wf(),
        t.wf(st.count()),
        moment(now),
        t.entry.len() > 0,
    ensures
        digits_value(t.entry) < st.count() ==> t.committed(st, now).cur == digits_value(t.entry),
        digits_value(t.entry) >= st.count() ==> t.committed(st, now).cur == t.cur && t.committed(
            st,
            now,
        ).gen == t.gen,
        t.committed(st, now).entry.len() == 0,
{
    let u = TvView { entry: Seq::empty(), ..t };
    assert(u.wf(st.count()));
    assert(is_digit(t.entry[0]));
    assert(all_digits(t.entry)) by {
        assert forall|i: int| 0 <= i < t.entry.len() implies '0' <= #[trigger] t.entry[i] <= '9' by {
            assert(is_digit(t.entry[i]));
        }
    }
    if digits_value(t.entry) < st.count() {
        lemma_tuned_fields(u, st, digits_value(t.entry) as usize, now);
    }
}

/// A digit is put behind those that are typed. Once there are as many as a channel number has, the
/// channel of that number is on, if there is one.
pub proof fn digits_make_a_channel_number(t: TvView, st: Station, d: char, rows: int, now: i64)
    requires
        listens(t, st, now),
        is_digit(d),
        t.entry.len() < digits_for(st.count()),
    ensures
        ({
            let u = t.keyed(st, Key::Digit(d), rows, now);
            let number = t.entry.push(d);
            &&& number.len() < digits_for(st.count()) ==> {
                &&& u.entry == number && u.cur == t.cur && u.gen == t.gen
                &&& u.entry_at == now && u.osd_until == now + 3_000_000
            }
            &&& number.len() == digits_for(st.count()) ==> {
                &&& u.entry.len() == 0
                &&& digits_value(number) < st.count() ==> u.cur == digits_value(number)
                &&& digits_value(number) >= st.count() ==> u.cur == t.cur && u.gen == t.gen
            }
        }),
{
    let u = TvView { help: false, ..t };
    assert(u.wf(st.count()));
    let v = u.typed(d, now);
    assert(v.entry == t.entry.push(d));
    if t.entry.len() + 1 == digits_for(st.count()) {
        assert(v.wf(st.count()));
        lemma_committed(v, st, now);
    }
}

/// The set once digits have been pressed one after the other.
pub open spec fn all_typed(t: TvView, st: Station, digits: Seq<char>, rows: int, now: i64) -> TvView
    decreases digits.len(),
{
    if digits.len() == 0 {
        t
    } else {
        all_typed(t, st, digits.drop_last(), rows, now).keyed(
            st,
            Key::Digit(digits.last()),
            rows,
            now,
        )
    }
}

proof fn lemma_partly_typed(t: TvView, st: Station, digits: Seq<char>, rows: int, now: i64)
    requires
        listens(t, st, now),
        t.entry.len() == 0,
        digits.len() < digits_for(st.count()),
        all_digits(digits),
    ensures
        ({
            let u = all_typed(t, st, digits, rows, now);
            &&& listens(u, st, now)
            &&& u.entry == digits
        }),
    decreases digits.len(),
{
    if digits.len() > 0 {
        let rest = digits.drop_last();
        let d = digits.last();
        assert('0' <= digits[digits.len() - 1] <= '9');
        assert forall|i: int| 0 <= i < rest.len() implies '0' <= #[trigger] rest[i] <= '9' by {
            assert('0' <= digits[i] <= '9');
        }
        lemma_partly_typed(t, st, rest, rows, now);
        let v = all_typed(t, st, rest, rows, now);
        let a = TvView { help: false, ..v };
        assert(rest.push(d) =~= digits);
        let u = a.typed(d, now);
        assert(v.keyed(st, Key::Digit(d), rows, now) == u);
        assert forall|i: int| 0 <= i < u.entry.len() implies is_digit(#[trigger] u.entry[i]) by {
            assert('0' <= digits[i] <= '9');
        }
        assert(u.wf(st.count()));
    } else {
        assert(t.entry =~= digits);
    }
}

/// To type the number of a channel, in as many digits as the set shows it in, is to tune it:
/// whichever channel it is, it is on then.
pub proof fn typing_a_channel_tunes_it(t: TvView, st: Station, ch: usize, rows: int, now: i64)
    requires
        listens(t, st, now),
        t.entry.len() == 0,
        ch < st.count(),
    ensures
        all_typed(t, st, decimal_padded(ch as nat, digits_for(st.count())), rows, now).cur == ch,
        all_typed(
            t,
            st,
            decimal_padded(ch as nat, digits_for(st.count())),
            rows,
            now,
        ).entry.len() == 0,
{
    let nd = digits_for(st.count());
    let digits = decimal_padded(ch as nat, nd);
    padded_decimals_read_back(ch as nat, nd);
    decimals_grow(ch as nat, (st.count() - 1) as nat);
    assert(digits.len() == nd);
    let rest = digits.drop_last();
    let d = digits.last();
    assert('0' <= digits[digits.len() - 1] <= '9');
    assert forall|i: int| 0 <= i < rest.len() implies '0' <= #[trigger] rest[i] <= '9' by {
        assert('0' <= digits[i] <= '9');
    }
    lemma_partly_typed(t, st, rest, rows, now);
    let v = all_typed(t, st, rest, rows, now);
    digits_make_a_channel_number(v, st, d, rows, now);
    assert(rest.push(d) =~= digits);
}

/// The channel keys step: up and down by one, right and left by ten, round the whole list with the
/// guide in it. What is being typed is dropped.
pub proof fn channel_keys_step(t: TvView, st: Station, rows: int, now: i64)
    requires
        listens(t, st, now),
        t.cur != 0 || t.guide_auto,
    ensures
        t.keyed(st, Key::Up, rows, now).cur == (t.cur + 1) % st.count(),
        t.keyed(st, Key::Down, rows, now).cur == (t.cur - 1) % st.count(),
        t.keyed(st, Key::Right, rows, now).cur == (t.cur + 10) % st.count(),
        t.keyed(st, Key::Left, rows, now).cur == (t.cur - 10) % st.count(),
        t.keyed(st, Key::Up, rows, now).entry.len() == 0,
        t.keyed(st, Key::Down, rows, now).entry.len() == 0,
        t.keyed(st, Key::Right, rows, now).entry.len() == 0,
        t.keyed(st, Key::Left, rows, now).entry.len() == 0,
{
    lemma_stepped(TvView { help: false, ..t }, st, 1, rows, now);
    lemma_stepped(TvView { help: false, ..t }, st, -1, rows, now);
    lemma_stepped(TvView { help: false, ..t }, st, 10, rows, now);
    lemma_stepped(TvView { help: false, ..t }, st, -10, rows, now);
}

proof fn lemma_stepped(t: TvView, st: Station, delta: int, rows: int, now: i64)
    requires
        st.wf(),
        t.wf(st.count()),
        moment(now),
        t.cur != 0 || t.guide_auto,
    ensures
        t.stepped(st, delta, rows, now).cur == (t.cur + delta) % st.count(),
        t.stepped(st, delta, rows, now).entry.len() == 0,
        t.stepped(st, delta, rows, now).guide_auto || t.stepped(st, delta, rows, now).cur != 0,
        t.stepped(st, delta, rows, now).power_off == t.power_off,
        t.stepped(st, delta, rows, now).menu == t.menu,
        t.stepped(st, delta, rows, now).wf(st.count()),
{
    let u = TvView { entry: Seq::empty(), ..t };
    assert(u.wf(st.count()));
    vstd::arithmetic::div_mod::lemma_mod_bound(t.cur + delta, st.count());
    let ch = ((t.cur + delta) % st.count()) as usize;
    assert(ch == (t.cur + delta) % st.count());
    lemma_tuned_fields(u, st, ch, now);
    tuning_keeps_the_set_in_order(u, st, ch, now);
}

/// A step up and a step down again, or the other way round, come back to the channel.
pub proof fn arrows_undo_each_other(
    t: TvView,
    st: Station,
    rows: int,
    now: i64,
    later: i64,
)
    requires
        listens(t, st, now),
        moment(later),
        t.cur != 0 || t.guide_auto,
    ensures
        t.keyed(st, Key::Up, rows, now).keyed(st, Key::Down, rows, later).cur == t.cur,
        t.keyed(st, Key::Down, rows, now).keyed(st, Key::Up, rows, later).cur == t.cur,
        t.keyed(st, Key::Right, rows, now).keyed(st, Key::Left, rows, later).cur == t.cur,
        t.keyed(st, Key::Left, rows, now).keyed(st, Key::Right, rows, later).cur == t.cur,
{
    lemma_there_and_back(t, st, Key::Up, Key::Down, rows, now, later);
    lemma_there_and_back(t, st, Key::Down, Key::Up, rows, now, later);
    lemma_there_and_back(t, st, Key::Right, Key::Left, rows, now, later);
    lemma_there_and_back(t, st, Key::Left, Key::Right, rows, now, later);
}

/// How far an arrow steps; 0 for other keys.
spec fn arrow(k: Key) -> int {
    match k {
        Key::Up => 1,
        Key::Down => -1,
        Key::Right => 10,
        Key::Left => -10,
        _ => 0,
    }
}

proof fn lemma_arrow(t: TvView, st: Station, k: Key, rows: int, now: i64)
    requires
        t.power_off is None,
        t.menu is None,
        arrow(k) != 0,
    ensures
        t.keyed(st, k, rows, now) == (TvView { help: false, ..t }).stepped(st, arrow(k), rows, now),
{
}

proof fn lemma_there_and_back(
    t: TvView,
    st: Station,
    k: Key,
    back: Key,
    rows: int,
    now: i64,
    later: i64,
)
    requires
        listens(t, st, now),
        moment(later),
        t.cur != 0 || t.guide_auto,
        arrow(k) != 0,
        arrow(back) == -arrow(k),
    ensures
        t.keyed(st, k, rows, now).keyed(st, back, rows, later).cur == t.cur,
{
    let n = st.count();
    let delta = arrow(k);
    let a = TvView { help: false, ..t };
    assert(a.wf(n));
    lemma_arrow(t, st, k, rows, now);
    lemma_stepped(a, st, delta, rows, now);
    let u = t.keyed(st, k, rows, now);
    lemma_arrow(u, st, back, rows, later);
    let b = TvView { help: false, ..u };
    assert(b.wf(n));
    lemma_stepped(b, st, -delta, rows, later);
    vstd::arithmetic::div_mod::lemma_sub_mod_noop(t.cur + delta, delta, n);
    vstd::arithmetic::div_mod::lemma_sub_mod_noop((t.cur + delta) % n, delta, n);
    vstd::arithmetic::div_mod::lemma_mod_twice(t.cur + delta, n);
    vstd::arithmetic::div_mod::lemma_small_mod(t.cur as nat, n as nat);
    assert(((t.cur + delta) % n - delta) % n == (t.cur + delta - delta) % n);
}

/// In the interactive guide the same keys move the cursor, and the guide stays on: up moves it up
/// the screen, to the channel one lower, round the list of channels.
#[verifier::rlimit(30)]
pub proof fn guide_keys_move_the_cursor(t: TvView, st: Station, rows: int, now: i64)
    requires
        listens(t, st, now),
        t.cur == 0 && !t.guide_auto,
    ensures
        t.keyed(st, Key::Up, rows, now).guide_sel == (if t.guide_sel == 1 {
            st.count() - 1
        } else {
            t.guide_sel - 1
        }),
        t.keyed(st, Key::Down, rows, now).guide_sel == (if t.guide_sel + 1 == st.count() {
            1
        } else {
            t.guide_sel + 1
        }),
        t.keyed(st, Key::Left, rows, now).guide_sel == (t.guide_sel + 9) % (st.count() - 1) + 1,
        t.keyed(st, Key::Right, rows, now).guide_sel == (t.guide_sel - 11) % (st.count() - 1) + 1,
{
    let n = st.count() - 1;
    let x = t.guide_sel - 1;
    lemma_guide_arrow(t, st, Key::Up, rows, now);
    lemma_guide_arrow(t, st, Key::Down, rows, now);
    lemma_guide_arrow(t, st, Key::Left, rows, now);
    lemma_guide_arrow(t, st, Key::Right, rows, now);
    if t.guide_sel == 1 {
        vstd::arithmetic::div_mod::lemma_mod_add_multiples_vanish(-1, n);
        vstd::arithmetic::div_mod::lemma_small_mod((n - 1) as nat, n as nat);
        assert((x - 1) % n == n - 1);
    } else {
        vstd::arithmetic::div_mod::lemma_small_mod((x - 1) as nat, n as nat);
    }
    if t.guide_sel + 1 == st.count() {
        vstd::arithmetic::div_mod::lemma_mod_self_0(n);
        assert((x + 1) % n == 0);
    } else {
        vstd::arithmetic::div_mod::lemma_small_mod((x + 1) as nat, n as nat);
    }
}

proof fn lemma_guide_arrow(t: TvView, st: Station, k: Key, rows: int, now: i64)
    requires
        listens(t, st, now),
        t.cur == 0 && !t.guide_auto,
        arrow(k) != 0,
    ensures
        ({
            let u = t.keyed(st, k, rows, now);
            &&& u.guide_sel == (t.guide_sel - 1 - arrow(k)) % (st.count() - 1) + 1
            &&& u.cur == 0 && !u.guide_auto && u.gen == t.gen && u.preview == t.preview
            &&& u.guide_nav_at == now && u.entry.len() == 0
        }),
{
    lemma_arrow(t, st, k, rows, now);
    vstd::arithmetic::div_mod::lemma_mod_bound(t.guide_sel - 1 - arrow(k), st.count() - 1);
}

/// Moving the cursor tunes nothing: the guide stays on, and so does what its box shows, until the
/// cursor has rested.
pub proof fn the_guide_stays_while_the_cursor_moves(
    t: TvView,
    st: Station,
    k: Key,
    rows: int,
    now: i64,
)
    requires
        listens(t, st, now),
        t.cur == 0 && !t.guide_auto,
        k == Key::Up || k == Key::Down || k == Key::Left || k == Key::Right,
    ensures
        ({
            let u = t.keyed(st, k, rows, now);
            &&& u.cur == 0 && !u.guide_auto && u.gen == t.gen && u.preview == t.preview
            &&& u.guide_nav_at == now && u.entry.len() == 0
        }),
{
    lemma_guide_arrow(t, st, k, rows, now);
}

/// Recall goes back to the channel that was on before, and pressed again comes back. Backspace does
/// the same.
pub proof fn recall_goes_back_and_forth(t: TvView, st: Station, rows: int, now: i64, later: i64)
    requires
        listens(t, st, now),
        moment(later),
        t.last_ch != t.cur,
    ensures
        t.keyed(st, Key::R, rows, now).cur == t.last_ch,
        t.keyed(st, Key::Backspace, rows, now).cur == t.last_ch,
        t.keyed(st, Key::R, rows, now).entry.len() == 0,
        t.cur != 0 ==> t.keyed(st, Key::R, rows, now).keyed(st, Key::R, rows, later).cur == t.cur,
        t.cur != 0 ==> t.keyed(st, Key::Backspace, rows, now).keyed(
            st,
            Key::Backspace,
            rows,
            later,
        ).cur == t.cur,
{
    let u = TvView { entry: Seq::empty(), help: false, ..t };
    assert(u.wf(st.count()));
    lemma_tuned_fields(u, st, t.last_ch, now);
    tuning_keeps_the_set_in_order(u, st, t.last_ch, now);
    let v = u.tuned(st, t.last_ch, now);
    assert(t.keyed(st, Key::R, rows, now) == v);
    let w = TvView { entry: Seq::empty(), help: false, ..v };
    assert(w.wf(st.count()));
    if t.cur != 0 {
        lemma_tuned_fields(w, st, t.cur, later);
    }
}

/// The channel to recall is the one that was last on, whatever is tuned: after tuning away from a
/// channel, Recall is back on it.
pub proof fn recall_undoes_a_tune(
    t: TvView,
    st: Station,
    ch: usize,
    rows: int,
    now: i64,
    later: i64,
)
    requires
        listens(t, st, now),
        moment(later),
        ch < st.count(),
        t.cur != 0,
        ch != t.cur,
    ensures
        t.tuned(st, ch, now).keyed(st, Key::R, rows, later).cur == t.cur,
{
    lemma_tuned_fields(t, st, ch, now);
    tuning_keeps_the_set_in_order(t, st, ch, now);
    recall_goes_back_and_forth(t.tuned(st, ch, now), st, rows, later, later);
}

/// The guide key opens the interactive guide, its cursor on the channel in the preview, and closes
/// it again onto the channel that was on.
pub proof fn the_guide_key_opens_and_closes(
    t: TvView,
    st: Station,
    rows: int,
    now: i64,
    later: i64,
)
    requires
        listens(t, st, now),
        moment(later),
        t.cur != 0 || t.guide_auto,
    ensures
        ({
            let u = t.keyed(st, Key::G, rows, now);
            &&& u.cur == 0 && !u.guide_auto
            &&& u.guide_sel == t.preview && u.guide_top == t.preview - 1
            &&& u.preview == t.preview
            &&& u.entry.len() == 0
            &&& t.cur != 0 ==> u.keyed(st, Key::G, rows, later).cur == t.cur
            &&& t.cur == 0 ==> u.keyed(st, Key::G, rows, later).cur == t.last_ch && u.gen == t.gen
            &&& u.out.contains(Effect::Send(Cmd::Music(false)))
        }),
{
    let a = TvView { entry: Seq::empty(), help: false, ..t };
    assert(a.wf(st.count()));
    lemma_tuned_fields(a, st, 0, now);
    tuning_keeps_the_set_in_order(a, st, 0, now);
    let b = if t.cur != 0 {
        a.tuned(st, 0, now)
    } else {
        a
    };
    let u = t.keyed(st, Key::G, rows, now);
    assert(u == a.guide_opened(st, now));
    assert(u.out =~= b.out.push(Effect::Send(Cmd::Music(false))).push(Effect::Paint));
    assert(u.out[b.out.len() as int] == Effect::Send(Cmd::Music(false)));
    let v = TvView { entry: Seq::empty(), help: false, ..u };
    assert(v.wf(st.count()));
    lemma_tuned_fields(v, st, u.last_ch, later);
}

/// On a channel with pictures the guide opens with the cursor on that channel: what was tuned is
/// what is selected, and Enter is back on it.
pub proof fn the_guide_opens_on_the_channel(
    t: TvView,
    st: Station,
    ch: usize,
    rows: int,
    now: i64,
    later: i64,
)
    requires
        listens(t, st, now),
        moment(later),
        1 <= ch < st.count(),
        st.weather != Some(ch),
        st.scheds@[ch as int].programs@.len() > 0,
    ensures
        t.tuned(st, ch, now).keyed(st, Key::G, rows, later).guide_sel == ch,
{
    lemma_tuned_fields(t, st, ch, now);
    tuning_keeps_the_set_in_order(t, st, ch, now);
    the_guide_key_opens_and_closes(t.tuned(st, ch, now), st, rows, later, later);
}

/// The volume keys turn the sound up and down by one step, between 0 and 20, and unmute it; the bar
/// shows for two and a half seconds.
pub proof fn volume_keys_turn_the_sound(t: TvView, st: Station, rows: int, now: i64)
    requires
        listens(t, st, now),
        t.audio is Some,
    ensures
        ({
            let v = t.audio->0.volume;
            let (up, down) = (t.keyed(st, Key::Plus, rows, now), t.keyed(st, Key::Minus, rows, now));
            &&& up.audio is Some && down.audio is Some
            &&& v < 20 ==> up.audio->0.volume == v + 1
            &&& v == 20 ==> up.audio->0.volume == 20
            &&& 0 < v ==> down.audio->0.volume == v - 1
            &&& v == 0 ==> down.audio->0.volume == 0
            &&& !up.audio->0.muted && !down.audio->0.muted
            &&& up.audio->0.snow == t.audio->0.snow && down.audio->0.snow == t.audio->0.snow
            &&& up.vol_until == now + 2_500_000 && down.vol_until == now + 2_500_000
            &&& up.cur == t.cur && down.cur == t.cur
            &&& up.entry == t.entry && down.entry == t.entry
        }),
{
}

/// The mute key mutes the sound and, pressed again, unmutes it; the volume stays.
pub proof fn the_mute_key_mutes(t: TvView, st: Station, rows: int, now: i64, later: i64)
    requires
        listens(t, st, now),
        moment(later),
        t.audio is Some,
    ensures
        t.keyed(st, Key::M, rows, now).audio is Some,
        t.keyed(st, Key::M, rows, now).audio->0.muted == !t.audio->0.muted,
        t.keyed(st, Key::M, rows, now).audio->0.volume == t.audio->0.volume,
        t.keyed(st, Key::M, rows, now).vol_until == now + 2_500_000,
        t.keyed(st, Key::M, rows, now).keyed(st, Key::M, rows, later).audio == t.audio,
        t.keyed(st, Key::M, rows, now).cur == t.cur,
{
}

/// Escape turns the set off: the sound is muted, the menu and the legend go, and from then on no key
/// does anything. Where the legend is up, Escape only takes it down.
pub proof fn escape_turns_the_set_off(t: TvView, st: Station, k: Key, rows: int, now: i64, later: i64)
    requires
        listens(t, st, now),
        moment(later),
    ensures
        ({
            let u = t.keyed(st, Key::Escape, rows, now);
            &&& !u.help && u.menu is None && u.cur == t.cur
            &&& t.help ==> u.power_off is None && u.audio == t.audio
            &&& !t.help ==> u.power_off == Some(now) && u.keyed(st, k, rows, later) == u
            &&& !t.help ==> (u.audio matches Some(a) ==> a.muted)
        }),
{
}

/// The legend comes and goes with its key.
pub proof fn the_legend_comes_and_goes(t: TvView, st: Station, rows: int, now: i64)
    requires
        listens(t, st, now),
    ensures
        t.keyed(st, Key::H, rows, now).help == !t.help,
        t.keyed(st, Key::H, rows, now).cur == t.cur,
        t.keyed(st, Key::H, rows, now).entry == t.entry,
        t.keyed(st, Key::H, rows, now).settings == t.settings,
{
}

/// Any other key takes the legend down.
pub proof fn other_keys_take_the_legend_down(t: TvView, st: Station, k: Key, rows: int, now: i64)
    requires
        listens(t, st, now),
        k != Key::H,
    ensures
        !t.keyed(st, k, rows, now).help,
{
    let a = TvView { help: false, ..t };
    let c = TvView { entry: Seq::empty(), ..a };
    match k {
        Key::Digit(d) => {
            lemma_committed_help(a, st, now);
            lemma_committed_help(a.typed(d, now), st, now);
        },
        Key::Up => lemma_step_help(a, st, 1, rows, now),
        Key::Down => lemma_step_help(a, st, -1, rows, now),
        Key::Right => lemma_step_help(a, st, 10, rows, now),
        Key::Left => lemma_step_help(a, st, -10, rows, now),
        Key::Enter => {
            lemma_committed_help(a, st, now);
            lemma_tuned_help(a, st, a.preview, now);
            lemma_tuned_help(a, st, a.guide_sel, now);
        },
        Key::I => {
            lemma_tuned_help(a, st, a.preview, now);
            lemma_tuned_help(a, st, a.guide_sel, now);
        },
        Key::Backspace => lemma_tuned_help(c, st, c.last_ch, now),
        Key::R => lemma_tuned_help(c, st, c.last_ch, now),
        Key::G => {
            lemma_tuned_help(c, st, c.last_ch, now);
            lemma_tuned_help(c, st, 0, now);
        },
        _ => {},
    }
}

proof fn lemma_tuned_help(t: TvView, st: Station, ch: usize, now: i64)
    ensures
        t.tuned(st, ch, now).help == t.help,
{
}

proof fn lemma_committed_help(t: TvView, st: Station, now: i64)
    ensures
        t.committed(st, now).help == t.help,
{
    let u = TvView { entry: Seq::empty(), ..t };
    lemma_tuned_help(u, st, digits_value(t.entry) as usize, now);
}

proof fn lemma_step_help(t: TvView, st: Station, delta: int, rows: int, now: i64)
    ensures
        t.stepped(st, delta, rows, now).help == t.help,
{
    let u = TvView { entry: Seq::empty(), ..t };
    lemma_tuned_help(u, st, ((t.cur + delta) % st.count()) as usize, now);
}

/// The tube's key switches the tube and has the settings written; nothing else of them changes.
pub proof fn the_tube_key_switches_the_tube(t: TvView, st: Station, rows: int, now: i64)
    requires
        listens(t, st, now),
    ensures
        ({
            let u = t.keyed(st, Key::C, rows, now);
            &&& u.settings.crt == !t.settings.crt
            &&& u.settings.adjusted(0, 1) == t.settings
            &&& u.out == t.out.push(Effect::Save).push(Effect::Paint)
            &&& u.cur == t.cur && u.menu is None && u.power_off is None
        }),
{
}

/// A key that is none of the remote control's does nothing but take the legend down.
pub proof fn other_keys_do_nothing(t: TvView, st: Station, rows: int, now: i64)
    requires
        listens(t, st, now),
    ensures
        t.keyed(st, Key::Other, rows, now) == (TvView { help: false, ..t }),
{
}

// ---------------------------------------------------------------- the set up menu

/// The set is on, in order, and shows the menu with the cursor on row `i`.
pub open spec fn in_menu(t: TvView, st: Station, i: usize) -> bool {
    &&& st.wf()
    &&& t.wf(st.count())
    &&& t.power_off is None
    &&& t.menu == Some(i)
}

/// The set up key opens the menu on its first row, with the ZIP code as it is set; pressed again, or
/// Escape, it closes the menu, and the set stays on.
pub proof fn the_menu_opens_and_closes(t: TvView, st: Station, rows: int, now: i64, later: i64)
    requires
        listens(t, st, now),
        moment(later),
    ensures
        ({
            let u = t.keyed(st, Key::S, rows, now);
            &&& u.menu == Some(0usize) && u.menu_zip == t.settings.weather_zip
            &&& u.settings == t.settings && u.cur == t.cur
            &&& u.keyed(st, Key::S, rows, later).menu is None
            &&& u.keyed(st, Key::Escape, rows, later).menu is None
            &&& u.keyed(st, Key::Escape, rows, later).power_off is None
            &&& u.keyed(st, Key::Escape, rows, later).settings == t.settings
        }),
{
}

/// In the menu the arrows up and down move the cursor by one row, round the list.
pub proof fn the_menus_cursor_goes_round(t: TvView, st: Station, i: usize, rows: int, now: i64)
    requires
        in_menu(t, st, i),
    ensures
        t.keyed(st, Key::Down, rows, now).menu matches Some(j) && j == (i + 1) % (MENU_LEN as int),
        t.keyed(st, Key::Up, rows, now).menu matches Some(j) && j == (i - 1) % (MENU_LEN as int),
        t.keyed(st, Key::Down, rows, now).settings == t.settings,
        t.keyed(st, Key::Up, rows, now).settings == t.settings,
{
    assert(i < 16);
    assert((i + 1) % 16 == (if i == 15 {
        0int
    } else {
        i + 1
    }));
    assert((i - 1) % 16 == (if i == 0 {
        15int
    } else {
        i - 1
    }));
}

/// In the menu no key changes the channel, the sound, the guide or the power.
pub proof fn the_menu_leaves_the_channel(t: TvView, st: Station, i: usize, k: Key, rows: int, now: i64)
    requires
        in_menu(t, st, i),
    ensures
        ({
            let u = t.keyed(st, k, rows, now);
            &&& u.cur == t.cur && u.gen == t.gen && u.preview == t.preview
            &&& u.last_ch == t.last_ch && u.entry == t.entry
            &&& u.audio == t.audio && u.power_off is None
            &&& u.guide_sel == t.guide_sel && u.guide_auto == t.guide_auto
            &&& u.guide_top == t.guide_top && u.help == t.help
            &&& u.out.last() == Effect::Paint
        }),
{
}

/// In the menu right and Enter change the row of the cursor one way, left the other way, and the
/// settings are written; the row of the ZIP code is not changed so.
pub proof fn the_menu_changes_the_row(t: TvView, st: Station, i: usize, rows: int, now: i64)
    requires
        in_menu(t, st, i),
        i != MENU_ZIP,
    ensures
        t.keyed(st, Key::Right, rows, now).settings == t.settings.adjusted(i as int, 1),
        t.keyed(st, Key::Enter, rows, now).settings == t.settings.adjusted(i as int, 1),
        t.keyed(st, Key::Left, rows, now).settings == t.settings.adjusted(i as int, -1),
        t.keyed(st, Key::Right, rows, now).out[t.out.len() as int] == Effect::Save,
        t.keyed(st, Key::Left, rows, now).out[t.out.len() as int] == Effect::Save,
        t.keyed(st, Key::Enter, rows, now).out[t.out.len() as int] == Effect::Save,
        t.cur == 0 ==> t.keyed(st, Key::Right, rows, now).out[t.out.len() as int + 1] == Effect::Send(
            Cmd::Music(t.guide_auto && t.settings.adjusted(i as int, 1).music),
        ),
        t.keyed(st, Key::Right, rows, now).menu == t.menu,
        t.keyed(st, Key::Left, rows, now).menu == t.menu,
        t.keyed(st, Key::Enter, rows, now).menu == t.menu,
{
}

/// On the row of the ZIP code digits are typed, five at most, and Backspace takes the last one away;
/// the settings keep the old code until Enter.
pub proof fn the_zip_is_typed(t: TvView, st: Station, d: char, rows: int, now: i64)
    requires
        in_menu(t, st, MENU_ZIP),
        is_digit(d),
        forall|i: int| 0 <= i < t.menu_zip.len() ==> is_digit(#[trigger] t.menu_zip[i]),
    ensures
        ({
            let u = t.keyed(st, Key::Digit(d), rows, now);
            let v = t.keyed(st, Key::Backspace, rows, now);
            &&& t.menu_zip.len() < 5 ==> u.menu_zip == t.menu_zip.push(d) && u.keyed(
                st,
                Key::Backspace,
                rows,
                now,
            ).menu_zip == t.menu_zip
            &&& t.menu_zip.len() >= 5 ==> u.menu_zip == t.menu_zip
            &&& t.menu_zip.len() > 0 ==> v.menu_zip == t.menu_zip.drop_last()
            &&& t.menu_zip.len() == 0 ==> v.menu_zip.len() == 0
            &&& u.settings == t.settings && v.settings == t.settings
            &&& t.keyed(st, Key::Left, rows, now).settings == t.settings
            &&& t.keyed(st, Key::Right, rows, now).settings == t.settings
        }),
{
    lemma_digits_are_bytes(t.menu_zip);
    if t.menu_zip.len() < 5 {
        assert(t.menu_zip.push(d).drop_last() =~= t.menu_zip);
    }
}

/// A ZIP code of five digits is taken with Enter: it is in the settings, which are written, and is
/// looked up. One that is not complete is not taken, nor is any while one is being looked up.
pub proof fn enter_takes_the_zip(t: TvView, st: Station, rows: int, now: i64)
    requires
        in_menu(t, st, MENU_ZIP),
        forall|i: int| 0 <= i < t.menu_zip.len() ==> is_digit(#[trigger] t.menu_zip[i]),
    ensures
        ({
            let u = t.keyed(st, Key::Enter, rows, now);
            &&& t.menu_zip.len() == 5 && !t.geo ==> {
                &&& u.settings.weather_zip == t.menu_zip
                &&& u.geo
                &&& u.out == t.out.push(Effect::Save).push(Effect::Lookup).push(Effect::Paint)
            }
            &&& t.menu_zip.len() != 5 || t.geo ==> u.settings == t.settings && u.geo == t.geo
                && u.out == t.out.push(Effect::Paint)
        }),
{
    lemma_digits_are_bytes(t.menu_zip);
}

/// A digit is one byte.
proof fn lemma_digits_are_bytes(s: Seq<char>)
    requires
        forall|i: int| 0 <= i < s.len() ==> is_digit(#[trigger] s[i]),
    ensures
        encode_utf8(s).len() == s.len(),
    decreases s.len(),
{
    reveal_with_fuel(encode_utf8, 2);
    if s.len() > 0 {
        let r = s.drop_first();
        assert forall|i: int| 0 <= i < r.len() implies is_digit(#[trigger] r[i]) by {
            assert(is_digit(s[i + 1]));
        }
        assert(is_digit(s[0]));
        lemma_digits_are_bytes(r);
    }
}

} // verus!
