use tuner::deal::{build_schedules, Manual};
use tuner::library::FileInfo;
use tuner::loader::{
    add_idents, assemble, channel_count, check_library, dress_channels, has_folders, ident_names,
    pin_channels, silent, Found, Step,
};
use tuner::networks::{make_styles, ChanStyle, Network};
use tuner::schedule::{Program, Schedule};
use tuner::settings::{Lineup, LineupChannel};

fn file(path: &str, secs: u64, bumper: bool) -> FileInfo {
    let name = path.rsplit('/').next().unwrap();
    let folder = path.rsplit('/').nth(1).map(|s| s.to_string());
    FileInfo {
        path: path.to_string(),
        stem: name.split('.').next().unwrap().to_string(),
        folder,
        duration: secs * 1_000_000,
        width: 640,
        height: 480,
        title: None,
        bumper,
    }
}

fn net(name: &str) -> Network {
    Network { name: name.to_string(), logo: None }
}

fn order(s: &Schedule) -> Vec<usize> {
    s.programs.iter().map(|p| p.file).collect()
}

fn two_programs() -> Schedule {
    Schedule {
        programs: vec![Program { file: 0, start: 0 }, Program { file: 1, start: 10_000_000 }],
        total: 30_000_000,
    }
}

#[test]
fn the_position_is_a_function_of_the_time() {
    let s = two_programs();
    assert_eq!(s.at(0, 0), (0, 0));
    assert_eq!(s.at(0, 9_999_999), (0, 9_999_999));
    assert_eq!(s.at(0, 10_000_000), (1, 0));
    assert_eq!(s.at(0, 30_000_000), (0, 0));
    // Every channel is 997 s further on.
    assert_eq!(s.at(1, 0), (0, 7_000_000));
    assert_eq!(s.at(3, 4_000_000), (1, 15_000_000));
    assert_eq!(silent().at(5, 123), (0, 0));
    for now in [0u64, 1_234_567_890, 1_700_000_000_000_000] {
        assert_eq!(s.at(2, now), s.at(2, now + 30_000_000));
        let t = (now as f64 / 1e6 + 2.0 * 997.0) % 30.0;
        let (i, off) = s.at(2, now);
        assert_eq!(i, (t >= 10.0) as usize);
        assert!((off as f64 / 1e6 - (t - if i == 1 { 10.0 } else { 0.0 })).abs() < 1e-3);
    }
}

#[test]
fn a_program_plays_on_from_where_it_is() {
    let s = two_programs();
    let (i, off) = s.at(4, 1_700_000_000_000_000);
    let len = if i == 0 { 10_000_000 } else { 20_000_000 };
    assert!(off < len);
    let step = (len - off - 1) as u64;
    assert_eq!(s.at(4, 1_700_000_000_000_000 + step), (i, len - 1));
    assert_eq!(s.at(4, 1_700_000_000_000_000 + step + 1), (1 - i, 0));
}

#[test]
fn idents_are_skipped_in_now_and_next() {
    let files = vec![file("/a/p.mp4", 10, false), file("/i/x.mp4", 2, true), file("/a/q.mp4", 8, false)];
    let s = Schedule {
        programs: vec![
            Program { file: 0, start: 0 },
            Program { file: 1, start: 10_000_000 },
            Program { file: 2, start: 12_000_000 },
        ],
        total: 20_000_000,
    };
    let x = s.now_next(&files, 0, 4_000_000);
    assert_eq!((x.now, x.next, x.left, x.done, x.of), (0, 2, 6_000_000, 4_000_000, 10_000_000));
    // During the ident "now" is the program about to start.
    let x = s.now_next(&files, 0, 11_000_000);
    assert_eq!((x.now, x.next, x.left, x.done), (2, 0, 9_000_000, 0));
    let x = s.now_next(&files, 0, 15_000_000);
    assert_eq!((x.now, x.next, x.left), (2, 0, 5_000_000));
}

#[test]
fn the_library_is_dealt_round_robin() {
    let files: Vec<FileInfo> = (0..7).map(|i| file(&format!("/v/{i}.mp4"), 10 + i, false)).collect();
    let nets = vec![net("A")];
    let styles = make_styles(4, 1);
    let got = build_schedules(&files, 3, &styles, &nets, &vec![]);
    let mut deck: Vec<usize> = (0..7).collect();
    let mut rng: u64 = 0x5EED_CAB1_E700_0001;
    for i in (1..7).rev() {
        rng = rng.wrapping_mul(6364136223846793005).wrapping_add(1442695040888963407);
        deck.swap(i, ((rng >> 33) % (i as u64 + 1)) as usize);
    }
    let sizes: Vec<usize> = got.iter().map(|s| s.programs.len()).collect();
    assert_eq!(sizes, [3, 2, 2]);
    for ch in 0..3 {
        let want: Vec<usize> = deck.iter().copied().skip(ch).step_by(3).collect();
        assert_eq!(order(&got[ch]), want);
        let mut at = 0u128;
        for p in &got[ch].programs {
            assert_eq!(p.start, at);
            at += files[p.file].duration as u128;
        }
        assert_eq!(got[ch].total, at);
    }
}

#[test]
fn lineup_channels_play_exactly_their_files() {
    let files: Vec<FileInfo> =
        ["/v/b.mp4", "/v/A.mp4", "/v/c.mp4", "/v/d.mp4"].iter().map(|p| file(p, 10, false)).collect();
    let manual = vec![Manual { channel: 2, files: vec![0, 1, 0], shuffle: false, idents: String::new() }];
    let got = build_schedules(&files, 2, &make_styles(3, 1), &vec![net("A")], &manual);
    assert_eq!(order(&got[1]), [1, 0]);
    let mut rest = order(&got[0]);
    rest.sort();
    assert_eq!(rest, [2, 3]);
    let manual = vec![Manual { channel: 2, files: vec![0, 1, 2, 3], shuffle: true, idents: String::new() }];
    let got = build_schedules(&files, 2, &make_styles(3, 1), &vec![net("A")], &manual);
    let mut want = vec![1usize, 0, 2, 3];
    let mut r = 2u64.wrapping_mul(0x9E37_79B9_7F4A_7C15) | 1;
    for i in (1..4).rev() {
        r = r.wrapping_mul(6364136223846793005).wrapping_add(1442695040888963407);
        want.swap(i, ((r >> 33) % (i as u64 + 1)) as usize);
    }
    assert_eq!(order(&got[1]), want);
    assert!(got[0].programs.is_empty());
}

#[test]
fn an_ident_of_the_network_follows_every_program() {
    let files = vec![
        file("/v/a.mp4", 10, false),
        file("/v/b.mp4", 10, false),
        file("/i/MTV (1)/x.mp4", 1, true),
        file("/i/HBO/y.mp4", 1, true),
    ];
    let nets = vec![net("mtv"), net("HBO"), net("CNN")];
    let mut styles = make_styles(2, 3);
    styles[1].net = 1;
    let got = build_schedules(&files, 1, &styles, &nets, &vec![]);
    let o = order(&got[0]);
    assert_eq!(o.len(), 4);
    assert_eq!((o[1], o[3]), (3, 3));
    // A named folder, an unknown one, and none.
    for (idents, want) in [("MTV", Some(2)), (" mtv (US) ", Some(2)), ("MTV (1)", Some(2)), ("off", None), (" Auto ", Some(3))] {
        let m = vec![Manual { channel: 1, files: vec![0], shuffle: false, idents: idents.to_string() }];
        let got = build_schedules(&files, 1, &styles, &nets, &m);
        let o = order(&got[0]);
        assert_eq!(o.get(1).copied(), want);
    }
    // The network's own folder is known by its cleaned name too.
    let named = vec![net("x"), net("MTV (US)")];
    let got = build_schedules(&files, 1, &styles, &named, &vec![]);
    assert_eq!(order(&got[0])[1], 2);
    styles[1].net = 2;
    let got = build_schedules(&files, 1, &styles, &nets, &vec![]);
    assert!(order(&got[0])[1] >= 2);
}

#[test]
fn the_order_of_the_lineup_does_not_matter() {
    let mut files: Vec<FileInfo> = (0..12).map(|i| file(&format!("/v/{i}.mp4"), 10 + i, false)).collect();
    files.extend((0..5).map(|i| file(&format!("/i/N{i}/x.mp4"), 1, true)));
    let manual = |channel: usize, list: &[usize]| Manual {
        channel,
        files: list.to_vec(),
        shuffle: channel % 2 == 0,
        idents: "nowhere".to_string(),
    };
    let (a, b, c) = (|| manual(4, &[0, 1, 2, 3]), || manual(1, &[4, 5, 6]), || manual(3, &[7, 8, 9, 10]));
    let build = |m: Vec<Manual>| {
        let got = build_schedules(&files, 4, &make_styles(5, 1), &vec![net("A")], &m);
        got.iter().map(|s| (s.programs.iter().map(|p| (p.file, p.start)).collect::<Vec<_>>(), s.total)).collect::<Vec<_>>()
    };
    let want = build(vec![a(), b(), c()]);
    assert!(want.iter().all(|s| !s.0.is_empty()));
    assert_eq!(build(vec![c(), b(), a()]), want);
    assert_eq!(build(vec![b(), a(), c()]), want);
}

#[test]
fn channels_are_counted_from_flags_settings_and_lineup() {
    let args = |v: &[&str]| v.iter().map(|s| s.to_string()).collect::<Vec<_>>();
    let lineup = Lineup { channels: vec![LineupChannel { number: 30, ..LineupChannel::default() }] };
    assert_eq!(channel_count(&args(&[]), 20, &Lineup::default()), 20);
    assert_eq!(channel_count(&args(&["--channels", "5"]), 20, &Lineup::default()), 5);
    assert_eq!(channel_count(&args(&["--channels", "5"]), 20, &lineup), 30);
    assert_eq!(channel_count(&args(&[]), 0, &Lineup::default()), 1);
}

#[test]
fn pinned_files_are_taken_once() {
    let found = Found {
        channel: 4,
        files: vec![file("/V/A.mp4", 1, false), file("/w/new.mp4", 1, false), file("/w/NEW.mp4", 1, false)],
        shuffle: true,
        idents: "off".to_string(),
    };
    let (files, manual) = pin_channels(vec![file("/v/a.mp4", 1, false)], vec![found]);
    assert_eq!(files.len(), 2);
    assert_eq!(manual.len(), 1);
    assert_eq!(manual[0].files, [0, 1, 1]);
    assert_eq!((manual[0].channel, manual[0].shuffle, manual[0].idents.as_str()), (4, true, "off"));
    let mut c = LineupChannel::default();
    assert!(!has_folders(&c));
    c.number = 1;
    c.sources = vec!["/x".to_string()];
    assert!(has_folders(&c));
    c.number = 0;
    assert!(!has_folders(&c));
}

#[test]
fn a_channel_listed_twice_has_its_last_entry() {
    let found = |path: &str| Found {
        channel: 1,
        files: vec![file(path, 1, false)],
        shuffle: false,
        idents: String::new(),
    };
    let (files, manual) = pin_channels(vec![], vec![found("/a"), found("/b")]);
    assert_eq!(files.len(), 2);
    let of_one: Vec<&Manual> = manual.iter().filter(|m| m.channel == 1).collect();
    assert_eq!(of_one.len(), 1);
    assert_eq!(of_one[0].files, [1]);
}

#[test]
fn idents_are_marked_and_named() {
    let mut files = vec![file("/v/a.mp4", 1, false)];
    add_idents(&mut files, vec![file("/i/MTV (2)/x.mp4", 1, false), file("/i/ABC/y.mp4", 1, false), file("/i/MTV/z.mp4", 1, false)]);
    assert_eq!(files.len(), 4);
    assert!(files[1].bumper && files[2].bumper && !files[0].bumper);
    assert_eq!(ident_names(&files), ["ABC", "MTV"]);
}

#[test]
fn the_lineup_dresses_its_channels() {
    let c = |number: usize, name: &str, logo: &str, bug: &str, clock: &str, ticker: &str| LineupChannel {
        number,
        name: name.to_string(),
        logo: logo.to_string(),
        bug: bug.to_string(),
        clock: clock.to_string(),
        ticker: ticker.to_string(),
        ..LineupChannel::default()
    };
    let lineup = Lineup {
        channels: vec![
            c(1, "", "hbo", "off", "on", "off"),
            c(2, "My Net", "hbo", "tl", "off", "on"),
            c(3, "HBO", "hbo", "bl", "auto", ""),
            c(99, "far", "", "", "", ""),
        ],
    };
    let mut nets = vec![net("MTV"), net("HBO")];
    let plain = make_styles(4, 2);
    let styles = dress_channels(&mut nets, &lineup, 3);
    assert_eq!(styles.len(), plain.len());
    assert_eq!(nets.len(), 3);
    assert_eq!(nets[2].name, "My Net");
    assert_eq!((styles[1].net, styles[1].bug, styles[1].clock, styles[1].ticker), (1, 0, true, false));
    assert_eq!((styles[2].net, styles[2].bug, styles[2].clock, styles[2].ticker), (2, 3, false, true));
    assert_eq!((styles[3].net, styles[3].bug), (1, 2));
    assert_eq!((styles[3].clock, styles[3].ticker), (plain[3].clock, plain[3].ticker));
    let untouched: ChanStyle = styles[4];
    assert_eq!(untouched, plain[4]);
}

#[test]
fn a_station_has_a_guide_and_maybe_a_weather_channel() {
    let files: Vec<FileInfo> = (0..4).map(|i| file(&format!("/v/{i}.mp4"), 10, false)).collect();
    let st = assemble(files, 2, make_styles(3, 1), vec![net("A")], &vec![], true);
    assert_eq!(st.scheds.len(), 4);
    assert_eq!(st.weather, Some(3));
    assert!(st.is_dark(0) && st.is_dark(3) && !st.is_dark(1));
    assert!(st.is_weather(3) && !st.is_weather(1));
    let i = st.chan_info(3, 0);
    assert_eq!((i.net.as_str(), i.now.as_str(), i.next.as_str()), ("WEATHER", "LOCAL FORECAST", "WEATHERSTAR 3000"));
    let i = st.chan_info(1, 0);
    assert_eq!(i.net, "A");
    assert_ne!(i.now, i.next);
    let (p, f, off) = st.playing(1, 0).unwrap();
    assert_eq!(f, st.scheds[1].programs[p].file);
    assert_eq!(off, 997_000_000 % 20_000_000 - st.scheds[1].programs[p].start as i64);
    assert!(st.playing(3, 0).is_none());
    assert_eq!(st.next_file(1, 1), st.scheds[1].programs[0].file);
}

#[test]
fn the_loading_screen_says_what_is_done() {
    let said = |s: Step| (s.status(), s.screen_line());
    let both = |a: &str| (a.to_string(), a.to_uppercase());
    assert_eq!(said(Step::Library("/Videos".to_string())), both("indexing /Videos"));
    assert_eq!(said(Step::Channel(7, "/a".to_string())), both("indexing channel 7 : /a"));
    assert_eq!(said(Step::Idents("/i".to_string())), both("indexing idents in /i"));
    assert_eq!(said(Step::Logos), both("loading network logos"));
    assert_eq!(said(Step::Deal(20)), both("building 20 channels"));
    assert_eq!(said(Step::Prime), both("priming channels"));
}

#[test]
fn a_named_folder_is_told_from_its_namesakes() {
    let files = vec![
        file("/v/a.mp4", 10, false),
        file("/i/MTV (US)/x.mp4", 1, true),
        file("/i/MTV (UK)/y.mp4", 1, true),
        file("/i/(US)/z.mp4", 1, true),
    ];
    let heard = |files: &Vec<FileInfo>, idents: &str| {
        let list: Vec<usize> = vec![0];
        let mut seen: Vec<usize> = (1..40usize)
            .map(|ch| {
                let m = vec![Manual { channel: ch, files: list.clone(), shuffle: false, idents: idents.to_string() }];
                order(&build_schedules(files, ch, &make_styles(ch + 1, 1), &vec![net("A")], &m)[ch - 1])[1]
            })
            .collect();
        seen.sort();
        seen.dedup();
        seen
    };
    assert_eq!(heard(&files, "MTV (US)"), [1]);
    assert_eq!(heard(&files, " mtv (uk) "), [2]);
    assert_eq!(heard(&files, " (US)"), [3]);
    let both: Vec<FileInfo> = vec![file("/v/a.mp4", 10, false), file("/i/MTV (UK)/y.mp4", 1, true), file("/i/HBO/z.mp4", 1, true)];
    assert_eq!(heard(&both, "MTV (US)"), [1]);
    assert_eq!(heard(&both, "MTV"), [1]);
}

#[test]
fn an_empty_library_is_an_error() {
    assert_eq!(
        check_library(&vec![], "/videos"),
        Err("No video files found in\n/videos\n\nSet the content library folder in the set up tool. Open it now?".to_string())
    );
    assert_eq!(check_library(&vec![file("/a", 1, false)], "/videos"), Ok(()));
}
