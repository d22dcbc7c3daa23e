use tuner::args::{arg_num, arg_text, content_dir, has_flag};
use tuner::host::{
    crash_text, launch_sibling, launch_sibling_with, launcher_target, panic_message,
    single_instance, use_parent_console, Claim, StdHandle, Web,
};
use tuner::present::{
    chroma_size, is_overlay, needs_resize, padded_pitch, pick_mode, pick_surface, plane_len, ppm,
    tube_width, unpad, Mode, Surface,
};
use tuner::setup::{
    boot_shot, boot_step, geocode_zip, is_stuck, is_wizard, launches, opens_setup, place_of,
    request, request_of, starts_server, tuner_start, zip_url, Progress, Request, Start, Step,
};
use tuner::stats::{figures, sort_times, TuneStats};

fn args(v: &[&str]) -> Vec<String> {
    v.iter().map(|s| s.to_string()).collect()
}

#[test]
fn flags_have_values() {
    let a = args(&["--crt", "--channels", "12", "--bench", "x"]);
    assert_eq!(arg_num(&a, "--channels", 1), 12);
    assert_eq!(arg_num(&a, "--bench", 3), 3);
    assert_eq!(arg_num(&a, "--shot", 9), 9);
    assert_eq!(arg_text(&a, "--bench"), Some("x".to_string()));
    assert_eq!(arg_text(&args(&["--music"]), "--music"), None);
    assert!(has_flag(&a, "--crt") && !has_flag(&a, "--sw"));
}

#[test]
fn the_first_bare_argument_is_the_content_folder() {
    assert_eq!(content_dir(&args(&[]), "content"), "content");
    assert_eq!(content_dir(&args(&["--channels", "12", "--sw", "/v"]), "content"), "/v");
    assert_eq!(content_dir(&args(&["--crt", "/v", "--start", "3"]), "content"), "/v");
    assert_eq!(content_dir(&args(&["alpha", "beta"]), "content"), "alpha");
    assert_eq!(content_dir(&args(&["--music", "m", "alpha", "--sw", "beta"]), "content"), "alpha");
}

#[test]
fn one_instance_runs() {
    assert!(single_instance(Claim::Fresh) && single_instance(Claim::Unavailable));
    assert!(!single_instance(Claim::Taken));
}

#[test]
fn siblings_are_named_for_their_system() {
    let l = launch_sibling("tuner.exe", true);
    assert_eq!((l.file_name.as_str(), l.args.len()), ("tuner.exe", 0));
    let l = launch_sibling_with("tuner-setup.exe", args(&["--wizard"]), false);
    assert_eq!((l.file_name.as_str(), l.args.len()), ("tuner-setup", 1));
    assert_eq!(launcher_target("TUNER Setup", true), "tuner-setup.exe");
    assert_eq!(launcher_target("TUNER", false), "tuner");
}

#[test]
fn the_console_is_the_parents_unless_redirected() {
    let h = |invalid: bool, null: bool| Some(StdHandle { invalid, null });
    assert!(use_parent_console(None) && use_parent_console(h(true, false)) && use_parent_console(h(false, true)));
    assert!(!use_parent_console(h(false, false)));
}

#[test]
fn crashes_are_reported() {
    assert_eq!(crash_text("tuner", "boom", "a.rs:3"), "tuner stopped: boom\n\n(a.rs:3)");
    assert_eq!(panic_message(Some("a"), Some("b")), "a");
    assert_eq!(panic_message(None, Some("b")), "b");
    assert_eq!(panic_message(None, None), "unknown error");
}

#[test]
fn the_page_is_told_what_changes() {
    let mut w = Web::new();
    let o = w.set(None);
    assert_eq!((o.set_bounds, o.set_visible), (None, None));
    let o = w.set(Some((640, 480)));
    assert_eq!((o.set_bounds, o.set_visible), (Some((640, 480)), Some(true)));
    let o = w.set(Some((640, 480)));
    assert_eq!((o.set_bounds, o.set_visible), (None, None));
    let o = w.set(None);
    assert_eq!((o.set_bounds, o.set_visible), (None, Some(false)));
    assert_eq!(w.bounds, (640, 480));
}

#[test]
fn a_zip_reply_names_a_place() {
    assert_eq!(zip_url("44114"), "https://api.zippopotam.us/us/44114");
    let body = r#"{"post code": "44114", "places": [{"place name": "Cleveland", "longitude": "-81.67", "state abbreviation": "OH", "latitude": "41.51"}]}"#;
    let p = geocode_zip(body).unwrap();
    assert_eq!((p.lat.as_str(), p.lon.as_str(), p.name.as_str()), ("41.51", "-81.67", "Cleveland, OH"));
    assert!(geocode_zip("{}").is_none());
    assert!(geocode_zip("not json").is_none());
    assert!(geocode_zip(r#"{"places": []}"#).is_none());
    assert!(geocode_zip(r#"{"places": [{"latitude": 41.5}]}"#).is_none());
    assert!(geocode_zip(&body.replace("41.51", "north")).is_none());
    let s = |t: &str| Some(t.to_string());
    assert!(place_of(s("1"), s("2"), s("c"), None).is_none());
    assert!(place_of(s("x"), s("2"), s("c"), s("d")).is_none() && place_of(s("1"), s(""), s("c"), s("d")).is_none());
    assert_eq!(place_of(s("1"), s("2"), s("c"), s("d")).unwrap().name, "c, d");
}

#[test]
fn the_page_asks_by_message() {
    assert!(matches!(request(r#"{"cmd":"load"}"#), Request::Load));
    assert!(matches!(request(r#"{"cmd":"save"}"#), Request::Save { launch: false }));
    assert!(matches!(request(r#"{"cmd":"launch"}"#), Request::Save { launch: true }));
    assert!(matches!(request(r#"{"cmd":"quit"}"#), Request::Quit));
    assert!(matches!(request(r#"{"cmd":7}"#), Request::Nothing));
    assert!(matches!(request("["), Request::Nothing));
    match request(r#"{"cmd":"browse","field":"content_dir"}"#) {
        Request::Browse { field, start } => assert_eq!((field.as_str(), start.as_str()), ("content_dir", "")),
        _ => panic!("a browse"),
    }
    assert!(matches!(request_of(Some("quit".to_string()), None, None), Request::Quit));
    assert!(matches!(request_of(None, None, None), Request::Nothing));
    assert!(launches(true, true) && !launches(false, true) && !launches(true, false));
}

#[test]
fn programs_start_by_what_they_find() {
    assert_eq!(tuner_start(true, false, false), Start::Run);
    assert_eq!(tuner_start(false, false, true), Start::Leave);
    assert_eq!(tuner_start(false, true, false), Start::Wizard);
    assert_eq!(tuner_start(false, true, true), Start::Run);
    assert!(is_wizard(&args(&["--wizard"]), true) && is_wizard(&args(&[]), false) && !is_wizard(&args(&[]), true));
    assert!(starts_server(true, "/ws", true));
    assert!(!starts_server(true, "", true) && !starts_server(false, "/ws", true) && !starts_server(true, "/ws", false));
}

#[test]
fn the_loading_screen_follows_the_loader() {
    assert_eq!(boot_step(Progress::Status, false), Step::Show);
    assert_eq!(boot_step(Progress::Done, false), Step::Keep);
    assert_eq!(boot_step(Progress::Fail { offer: true }, false), Step::Complain);
    assert_eq!(boot_step(Progress::Quiet, false), Step::Wait);
    assert_eq!(boot_step(Progress::Gone, false), Step::Leave);
    assert_eq!(boot_step(Progress::Gone, true), Step::Wait);
    assert!(opens_setup(true, true) && !opens_setup(true, false) && !opens_setup(false, true));
    assert!(boot_shot(5, false, 5_000) && !boot_shot(5, false, 4_999) && !boot_shot(5, true, 9_000) && !boot_shot(0, false, 9));
    assert!(is_stuck(141, 100) && !is_stuck(140, 100) && !is_stuck(1, 100));
}

#[test]
fn surfaces_and_planes_are_sized() {
    assert_eq!(pick_surface(true, true), Surface::Bgra);
    assert_eq!(pick_surface(false, true), Surface::Rgba);
    assert_eq!(pick_surface(false, false), Surface::First);
    assert_eq!(pick_mode(true, true), Mode::Immediate);
    assert_eq!(pick_mode(false, true), Mode::Mailbox);
    assert_eq!(pick_mode(false, false), Mode::Fifo);
    assert!(needs_resize((1, 1), (2, 1)) && !needs_resize((2, 1), (2, 1)) && !needs_resize((2, 1), (0, 5)));
    assert_eq!(chroma_size(641, 480), (321, 240));
    assert_eq!(tube_width(1280, 720), 853);
    assert_eq!(tube_width(640, 480), 640);
    assert_eq!(tube_width(3, 0), 1440);
    assert!(is_overlay(6, 3, 2) && !is_overlay(5, 3, 2));
    assert_eq!(plane_len(4, 2, 1, 100, 8), Some(16));
    assert_eq!(plane_len(4, 2, 1, 12, 8), Some(12));
    assert_eq!(plane_len(4, 2, 1, 11, 8), None);
    assert_eq!(padded_pitch(1280), 5120);
    assert_eq!(padded_pitch(1), 256);
    assert_eq!(padded_pitch(65), 512);
}

#[test]
fn pictures_are_read_back_and_written() {
    let mut data = vec![0u8; 512];
    data[..8].copy_from_slice(&[1, 2, 3, 4, 5, 6, 7, 8]);
    data[256..264].copy_from_slice(&[11, 12, 13, 14, 15, 16, 17, 18]);
    assert_eq!(unpad(&data, 2, 2, 256, true), [1, 2, 3, 4, 5, 6, 7, 8, 11, 12, 13, 14, 15, 16, 17, 18]);
    assert_eq!(unpad(&data, 1, 2, 256, false), [3, 2, 1, 4, 13, 12, 11, 14]);
    assert_eq!(ppm(2, 1, &vec![1, 2, 3, 4, 5, 6, 7, 8]), b"P6\n2 1\n255\n\x03\x02\x01\x07\x06\x05");
}

#[test]
fn sessions_have_figures() {
    let t = |total: u64, lock_wait: u64, primed_hit: bool, cold_open: bool| TuneStats { total, lock_wait, primed_hit, cold_open };
    assert!(figures(&vec![]).is_none());
    let v = vec![t(30, 1, true, false), t(10, 9, true, false), t(20, 3, false, true)];
    assert_eq!(sort_times(&v), [10, 20, 30]);
    let f = figures(&v).unwrap();
    assert_eq!((f.tunes, f.min, f.p50, f.p90, f.p99, f.max), (3, 10, 20, 30, 30, 30));
    assert_eq!((f.sum, f.hits, f.cold, f.lock_max), (60, 2, 1, 9));
    for n in 1..120u64 {
        let v: Vec<TuneStats> = (0..n).rev().map(|i| t(i, 0, false, false)).collect();
        let f = figures(&v).unwrap();
        let p = |q: f64| ((n as f64 - 1.0) * q).round() as u64;
        assert_eq!((f.p50, f.p90, f.p99), (p(0.5), p(0.9), p(0.99)));
    }
}
