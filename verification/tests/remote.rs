use tuner::guide::{channel_in_row, visible_rows};
use tuner::idle::{Place, Reply};
use tuner::library::FileInfo;
use tuner::loader::assemble;
use tuner::networks::{make_styles, Network};
use tuner::overlay::Props;
use tuner::pace::{count_dropped, static_alpha};
use tuner::settings::{Settings, MENU_LEN, MENU_ZIP};
use tuner::start::RunArgs;
use tuner::station::{ChanInfo, Station};
use tuner::tv::{Cmd, Effect, Key, Tv};

const NCHAN: usize = 12;
const SEC: i64 = 1_000_000;

fn station(files: usize, weather: bool) -> Station {
    let files: Vec<FileInfo> = (0..files)
        .map(|i| FileInfo {
            path: format!("/v/{i}.mp4"),
            stem: format!("{i}"),
            folder: None,
            duration: 60_000_000,
            width: 640,
            height: 480,
            title: None,
            bumper: false,
        })
        .collect();
    let nets = vec![Network { name: "NET".to_string(), logo: None }];
    assemble(files, NCHAN, make_styles(NCHAN + 1, 1), nets, &vec![], weather)
}

fn run() -> RunArgs {
    RunArgs { bench: 0, start_ch: 1, shot_ms: 0 }
}

fn set(st: &Station) -> Tv {
    let mut tv = Tv::new(Settings::default(), st, &run(), NCHAN, true, 0);
    tv.start(st, 1, st.weather.is_some(), 0);
    tv.take_effects();
    tv
}

fn press(tv: &mut Tv, st: &Station, k: Key, now: i64) -> Vec<Effect> {
    tv.key(st, k, 5, now);
    tv.take_effects()
}

fn sends(v: &[Effect], c: Cmd) -> bool {
    v.iter().any(|e| matches!(e, Effect::Send(d) if *d == c))
}

#[test]
fn the_set_starts_on_its_channel() {
    let st = station(24, false);
    let mut tv = Tv::new(Settings::default(), &st, &RunArgs { start_ch: 99, ..run() }, NCHAN, true, 5);
    assert_eq!((tv.cur, tv.preview, tv.last_ch, tv.gen), (1, 1, NCHAN, 0));
    tv.start(&st, 99, false, 5);
    assert_eq!(tv.cur, NCHAN);
    let e = tv.take_effects();
    assert!(sends(&e, Cmd::Tune { src: NCHAN, gen: 1, guide: false }));
    assert!(tv.take_effects().is_empty());
}

#[test]
fn stepping_wraps_around_and_back() {
    let st = station(24, false);
    let mut tv = set(&st);
    let e = press(&mut tv, &st, Key::Up, SEC);
    assert_eq!(tv.cur, 2);
    assert!(sends(&e, Cmd::Tune { src: 2, gen: 2, guide: false }));
    press(&mut tv, &st, Key::Down, SEC);
    assert_eq!(tv.cur, 1);
    press(&mut tv, &st, Key::Left, SEC);
    assert_eq!(tv.cur, 4);
    press(&mut tv, &st, Key::Right, SEC);
    assert_eq!(tv.cur, 1);
    press(&mut tv, &st, Key::Down, SEC);
    assert_eq!(tv.cur, 0);
    press(&mut tv, &st, Key::Down, SEC);
    assert_eq!(tv.cur, NCHAN);
    assert_eq!(tv.last_ch, 1);
}

#[test]
fn recall_twice_comes_back() {
    let st = station(24, false);
    let mut tv = set(&st);
    press(&mut tv, &st, Key::Right, SEC);
    assert_eq!((tv.cur, tv.last_ch), (11, 1));
    press(&mut tv, &st, Key::R, SEC);
    assert_eq!((tv.cur, tv.last_ch), (1, 11));
    press(&mut tv, &st, Key::Backspace, SEC);
    assert_eq!(tv.cur, 11);
    // From the guide it goes back to the channel before it.
    press(&mut tv, &st, Key::Digit('0'), SEC);
    press(&mut tv, &st, Key::Enter, SEC);
    assert_eq!(tv.cur, 0);
    press(&mut tv, &st, Key::R, SEC);
    assert_eq!(tv.cur, 11);
}

#[test]
fn typed_numbers_tune() {
    let st = station(24, false);
    let mut tv = set(&st);
    assert_eq!(Tv::digits(&st), 2);
    press(&mut tv, &st, Key::Digit('0'), SEC);
    assert_eq!(tv.entry, "0");
    press(&mut tv, &st, Key::Digit('7'), SEC);
    assert_eq!((tv.cur, tv.entry.as_str()), (7, ""));
    // A channel that there is not: the entry is dropped.
    press(&mut tv, &st, Key::Digit('9'), SEC);
    press(&mut tv, &st, Key::Digit('9'), SEC);
    assert_eq!((tv.cur, tv.entry.as_str()), (7, ""));
    press(&mut tv, &st, Key::Digit('3'), SEC);
    press(&mut tv, &st, Key::Enter, SEC);
    assert_eq!(tv.cur, 3);
    // Left alone it commits by itself.
    press(&mut tv, &st, Key::Digit('5'), 10 * SEC);
    assert!(!tv.idle(&st, &Reply::Pending, 11 * SEC));
    assert_eq!(tv.cur, 3);
    tv.idle(&st, &Reply::Pending, 10 * SEC + 1_500_001);
    assert_eq!(tv.cur, 5);
}

#[test]
fn the_guide_opens_moves_and_closes() {
    let st = station(24, false);
    let mut tv = set(&st);
    let e = press(&mut tv, &st, Key::G, SEC);
    assert_eq!((tv.cur, tv.guide_auto, tv.guide_sel), (0, false, 1));
    assert!(sends(&e, Cmd::Tune { src: 1, gen: 2, guide: false }) || sends(&e, Cmd::Music(false)));
    press(&mut tv, &st, Key::Down, SEC);
    assert_eq!(tv.guide_sel, 2);
    press(&mut tv, &st, Key::Up, SEC);
    press(&mut tv, &st, Key::Up, SEC);
    assert_eq!(tv.guide_sel, NCHAN);
    // The ad box follows the cursor once it has rested.
    tv.idle(&st, &Reply::Pending, SEC + 300_000);
    assert_eq!(tv.preview, 1);
    tv.idle(&st, &Reply::Pending, SEC + 350_001);
    assert_eq!(tv.preview, NCHAN);
    press(&mut tv, &st, Key::Enter, 2 * SEC);
    assert_eq!(tv.cur, NCHAN);
    press(&mut tv, &st, Key::G, 3 * SEC);
    press(&mut tv, &st, Key::G, 3 * SEC);
    assert_eq!(tv.cur, NCHAN);
}

#[test]
fn the_cursor_stays_on_screen() {
    let st = station(24, false);
    let mut tv = set(&st);
    press(&mut tv, &st, Key::G, SEC);
    for k in [Key::Down, Key::Down, Key::Down, Key::Down, Key::Down, Key::Left, Key::Up, Key::Right, Key::Right, Key::Up] {
        press(&mut tv, &st, k, SEC);
        let below = (tv.guide_sel as i64 - 1 - tv.guide_top).rem_euclid(NCHAN as i64);
        assert!(below < 5, "{below}");
    }
}

#[test]
fn tuning_leaves_files_alone() {
    let st = station(3, true);
    let mut tv = set(&st);
    for k in [Key::Up, Key::Right, Key::Left, Key::Down, Key::R] {
        let e = press(&mut tv, &st, k, SEC);
        assert!(!e.iter().any(|x| matches!(x, Effect::Save | Effect::Lookup | Effect::Exit)));
    }
}

#[test]
fn the_prevue_channel_rotates_and_scrolls() {
    let st = station(3, true);
    let mut tv = set(&st);
    press(&mut tv, &st, Key::Digit('0'), SEC);
    let e = press(&mut tv, &st, Key::Enter, SEC);
    assert_eq!((tv.cur, tv.guide_auto, tv.guide_top), (0, true, 0));
    assert!(sends(&e, Cmd::Tune { src: 1, gen: 2, guide: true }));
    tv.idle(&st, &Reply::Pending, 3 * SEC);
    assert_eq!((tv.guide_top, tv.preview), (1, 1));
    tv.idle(&st, &Reply::Pending, 9 * SEC + 1);
    assert_eq!(tv.preview, 2);
    tv.idle(&st, &Reply::Pending, 18 * SEC);
    tv.idle(&st, &Reply::Pending, 27 * SEC);
    // Three files on twelve channels: the rest have no pictures.
    assert_eq!(tv.preview, 1);
}

#[test]
fn channels_without_pictures_stop_the_decoder() {
    let st = station(3, true);
    let mut tv = set(&st);
    press(&mut tv, &st, Key::Digit('0'), SEC);
    let e = press(&mut tv, &st, Key::Digit('9'), SEC);
    assert!(sends(&e, Cmd::Stop));
    assert!(e.iter().any(|x| matches!(x, Effect::Navigate)));
    assert_eq!((tv.cur, tv.preview), (9, 1));
    assert_eq!(tv.ready_at, SEC + 24 * 3600 * SEC);
    press(&mut tv, &st, Key::Digit('1'), SEC);
    let e = press(&mut tv, &st, Key::Digit('3'), SEC);
    assert!(sends(&e, Cmd::Stop));
    assert_eq!(tv.ready_at, SEC + 650_000);
    // The page is loaded once.
    assert!(!e.iter().any(|x| matches!(x, Effect::Navigate)));
}

#[test]
fn volume_steps_and_mutes() {
    let st = station(24, false);
    let mut tv = set(&st);
    let volume = |tv: &Tv| tv.audio.unwrap().volume;
    assert_eq!(volume(&tv), 12);
    press(&mut tv, &st, Key::Plus, SEC);
    assert_eq!(volume(&tv), 13);
    assert_eq!(tv.vol_until, SEC + 2_500_000);
    press(&mut tv, &st, Key::M, SEC);
    assert!(tv.audio.unwrap().muted);
    press(&mut tv, &st, Key::Minus, SEC);
    assert!(!tv.audio.unwrap().muted);
    for _ in 0..30 {
        press(&mut tv, &st, Key::Minus, SEC);
    }
    assert_eq!(volume(&tv), 0);
    for _ in 0..30 {
        press(&mut tv, &st, Key::Plus, SEC);
    }
    assert_eq!(volume(&tv), 20);
    let mut silent = Tv::new(Settings::default(), &st, &run(), NCHAN, false, 0);
    press(&mut silent, &st, Key::Plus, SEC);
    assert!(silent.audio.is_none());
}

#[test]
fn the_menu_changes_settings() {
    let st = station(24, true);
    let mut tv = set(&st);
    press(&mut tv, &st, Key::S, SEC);
    assert_eq!(tv.menu, Some(0));
    let e = press(&mut tv, &st, Key::Right, SEC);
    assert!(tv.settings.crt);
    assert!(e.iter().any(|x| matches!(x, Effect::Save)));
    press(&mut tv, &st, Key::Up, SEC);
    assert_eq!(tv.menu, Some(MENU_ZIP));
    for d in ['4', '4', '1', '1', '4', '9'] {
        press(&mut tv, &st, Key::Digit(d), SEC);
    }
    assert_eq!(tv.menu_zip, "44114");
    press(&mut tv, &st, Key::Backspace, SEC);
    let e = press(&mut tv, &st, Key::Enter, SEC);
    assert!(!e.iter().any(|x| matches!(x, Effect::Lookup)));
    press(&mut tv, &st, Key::Digit('3'), SEC);
    let e = press(&mut tv, &st, Key::Enter, SEC);
    assert!(e.iter().any(|x| matches!(x, Effect::Lookup)));
    assert!(tv.geo);
    assert_eq!(tv.settings.weather_zip, "44113");
    press(&mut tv, &st, Key::Down, SEC);
    assert_eq!(tv.menu, Some(0));
    press(&mut tv, &st, Key::Escape, SEC);
    assert_eq!((tv.menu, tv.power_off), (None, None));
    assert_eq!(MENU_LEN, 16);
}

#[test]
fn a_lookup_moves_the_weather() {
    let st = station(24, true);
    let mut tv = set(&st);
    tv.geo = true;
    tv.idle(&st, &Reply::Failed, 3 * SEC);
    assert!(!tv.geo);
    assert_eq!(tv.settings.weather_location, "Cleveland, OH");
    tv.take_effects();
    tv.geo = true;
    let there = Place { lat: "40.7".to_string(), lon: "-74".to_string(), name: "New York, NY".to_string() };
    tv.idle(&st, &Reply::Found(there), 4 * SEC);
    assert_eq!(tv.settings.weather_location, "New York, NY");
    assert_eq!(tv.settings.weather_lat, "40.7");
    let e = tv.take_effects();
    assert!(e.iter().any(|x| matches!(x, Effect::Save)) && e.iter().any(|x| matches!(x, Effect::Navigate)));
}

#[test]
fn the_page_is_preloaded_after_a_moment() {
    let st = station(24, true);
    let mut tv = set(&st);
    tv.idle(&st, &Reply::Pending, 2 * SEC);
    assert!(!tv.web_navigated);
    tv.idle(&st, &Reply::Pending, 2_500_001);
    assert!(tv.web_navigated);
    assert!(tv.take_effects().iter().any(|x| matches!(x, Effect::Navigate)));
}

#[test]
fn the_legend_goes_away_with_any_key() {
    let st = station(24, false);
    let mut tv = set(&st);
    press(&mut tv, &st, Key::H, SEC);
    assert!(tv.help);
    press(&mut tv, &st, Key::Up, SEC);
    assert!(!tv.help);
    assert_eq!(tv.cur, 2);
    press(&mut tv, &st, Key::H, SEC);
    press(&mut tv, &st, Key::Escape, SEC);
    assert!(!tv.help && tv.power_off.is_none());
    press(&mut tv, &st, Key::C, SEC);
    assert!(tv.settings.crt);
    press(&mut tv, &st, Key::I, SEC);
    press(&mut tv, &st, Key::Other, SEC);
    assert_eq!(tv.cur, 2);
}

#[test]
fn power_off_plays_out_and_ignores_keys() {
    let st = station(24, false);
    let mut tv = set(&st);
    press(&mut tv, &st, Key::Escape, SEC);
    assert_eq!(tv.power_off, Some(SEC));
    press(&mut tv, &st, Key::Up, SEC);
    assert_eq!(tv.cur, 1);
    let t = tv.tick(&st, &vec![], 0, SEC + 599_999, 0);
    assert!(!t.exit);
    let t = tv.tick(&st, &vec![], 0, SEC + 600_000, 0);
    assert!(t.exit);
    tv.close(&st, SEC);
    assert!(tv.take_effects().iter().any(|x| matches!(x, Effect::Exit)));
    let mut other = set(&st);
    other.close(&st, SEC);
    assert_eq!(other.power_off, Some(SEC));
}

#[test]
fn snow_fades_in_a_tenth_of_a_second() {
    assert_eq!(static_alpha(0, 1), 255);
    assert_eq!(static_alpha(1, 1), 255);
    assert_eq!(static_alpha(50_001, 1), 127);
    assert_eq!(static_alpha(100_001, 1), 0);
    for t in (0..100_000).step_by(997) {
        let want = (255.0 * (1.0 - t as f64 / 100_000.0)) as u32;
        assert!(static_alpha(t, 0).abs_diff(want) <= 1);
    }
}

#[test]
fn late_and_stray_frames_are_dropped() {
    assert_eq!(count_dropped(&vec![0, 10_000, 60_000], 100_000), 2);
    assert_eq!(count_dropped(&vec![0], 100_000), 0);
    assert_eq!(count_dropped(&vec![9_000_000, 10_000], 0), 1);
    assert_eq!(count_dropped(&vec![60_000, 70_000], 100_000), 0);
}

#[test]
fn frames_are_shown_when_due() {
    let st = station(24, false);
    let mut tv = set(&st);
    // The first frame of a channel comes at once.
    let t = tv.tick(&st, &vec![500_000], 0, 2 * SEC, 0);
    assert!(t.show && t.first && t.drop == 0);
    assert_eq!(tv.ready_at, 2 * SEC);
    let t = tv.tick(&st, &vec![15_000], 0, 10 * SEC, 0);
    assert!(!t.show && !t.first);
    assert_eq!(t.wake, 15_000);
    let t = tv.tick(&st, &vec![2_000], 0, 10 * SEC, 0);
    assert!(t.show);
    assert_eq!(t.wake, 1_000);
    assert!(tv.current(tv.gen) && !tv.current(tv.gen + 1));
    assert_eq!(tv.source(), 1);
}

#[test]
fn effects_follow_the_clock() {
    let st = station(24, false);
    let mut tv = set(&st);
    tv.ready_at = 2 * SEC;
    let fx = tv.compose(&st, 2 * SEC + 50_000);
    assert_eq!((fx.snow, fx.snow_full, fx.power, fx.page), (127, true, 1_000_000, false));
    assert_eq!(fx.settle, 888_889);
    assert_eq!(tv.audio.unwrap().snow, 127);
    assert_eq!(tv.fx_period(2 * SEC + 50_000), Some(8_000));
    tv.osd_until = 0;
    assert_eq!(tv.fx_period(9 * SEC), None);
    let warm = tv.compose(&st, 550_000);
    assert_eq!(warm.power, 500_000);
}

#[test]
fn a_bench_tunes_and_ends() {
    let st = station(24, false);
    let mut tv = Tv::new(Settings::default(), &st, &RunArgs { bench: 2, ..run() }, NCHAN, true, 0);
    tv.start(&st, 1, false, 0);
    assert!(!tv.idle(&st, &Reply::Pending, SEC));
    assert_eq!(tv.bench_left, 2);
    let gen = tv.gen;
    tv.idle(&st, &Reply::Pending, 1_500_000);
    assert_eq!((tv.bench_left, tv.gen), (1, gen + 1));
    tv.idle(&st, &Reply::Pending, 1_533_000);
    assert_eq!((tv.bench_left, tv.shot_at), (0, Some(1_833_000)));
    assert!(tv.dump_next);
    assert!(tv.idle(&st, &Reply::Pending, 1_833_000));
}

fn props_of(info: ChanInfo, infos: Vec<ChanInfo>) -> Props {
    Props {
        info,
        infos,
        date: "FRI DEC 31".to_string(),
        clock: "9:05 PM".to_string(),
        corner: None,
        news: "x".to_string(),
        music: String::new(),
        path: "p".to_string(),
        logo: None,
        head_w: 100,
        volume_w: 100,
        menu_w: 100,
        tag_w: 50,
        news_w: 1_000_000,
        ticker_w: 1_000_000,
    }
}

#[test]
fn the_guide_lists_the_channel_of_each_row() {
    let st = station(24, false);
    let mut tv = set(&st);
    let (info, infos) = tv.listings(&st, 0, 720);
    assert_eq!(info.now, st.chan_info(1, 0).now);
    assert!(infos.is_empty());
    press(&mut tv, &st, Key::G, SEC);
    let (info, infos) = tv.listings(&st, 0, 720);
    assert_eq!(info.now, st.chan_info(tv.preview, 0).now);
    assert_eq!(infos.len(), visible_rows(720));
    for (r, x) in infos.iter().enumerate() {
        let want = st.chan_info(channel_in_row(tv.guide_top, r, NCHAN), 0);
        assert_eq!((&x.net, &x.now, &x.next), (&want.net, &want.now, &want.next));
    }
    assert!(tv.listings(&st, 0, 100).1.is_empty());
}

#[test]
fn the_overlay_is_drawn_in_layers() {
    let st = station(24, false);
    let mut tv = set(&st);
    let (w, h) = (1280, 720);
    let now = SEC;
    let l = tv.layers(&st, now, w, h);
    assert!(l.any && l.number && l.banner && !l.guide && !l.menu && !l.volume);
    let props = |tv: &Tv| {
        let (info, infos) = tv.listings(&st, 0, h);
        props_of(info, infos)
    };
    let v = tv.draw_overlay(&st, &props(&tv), now, w, h);
    let text = |v: &[tuner::draw::Op], s: &str| v.iter().any(|o| matches!(o, tuner::draw::Op::Text(t, _) if t == s));
    assert!(matches!(v[0], tuner::draw::Op::Clear(0)));
    assert!(text(&v, "01") && text(&v, "01 NET") && !text(&v, "SET UP MENU"));
    assert!(v.iter().all(|o| tuner::draw::is_op_within(o, w, h)));
    press(&mut tv, &st, Key::S, now);
    let v = tv.draw_overlay(&st, &props(&tv), now, w, h);
    assert!(text(&v, "SET UP MENU"));
    press(&mut tv, &st, Key::S, now);
    press(&mut tv, &st, Key::G, now);
    let v = tv.draw_overlay(&st, &props(&tv), now, w, h);
    assert!(text(&v, "FRI DEC 31") && text(&v, "9:05 PM"));
    assert!(!tv.layers(&st, now, 300, 100).any);
}
