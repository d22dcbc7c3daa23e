use tuner::audio::{
    drop_point, gain, music_seed, noise_level, noise_next, pick_track, wants_music, SoundQueue,
};
use tuner::deck::{Act, Deck, Pass};
use tuner::decode::{
    choose_source, count_due, follows_on, has_left, has_lost, is_primed, merge, pick_format,
    preopens, reads_on, rollover, to_micros, to_ticks, trim_video, Job, Offer, Order, Source,
};
use tuner::library::FileInfo;
use tuner::loader::assemble;
use tuner::networks::{make_styles, Network};
use tuner::tv::{Cmd, Sound};

#[test]
fn ticks_are_cut_toward_zero() {
    assert_eq!(to_ticks(1_500_000, 1, 90_000), 135_000);
    assert_eq!(to_ticks(-1, 1, 90_000), 0);
    assert_eq!(to_micros(135_000, 1, 90_000), 1_500_000);
    assert_eq!(to_micros(-1, 1, 3), -333_333);
    assert_eq!(to_micros(i64::MAX / 1_000_000, 1, 1), i64::MAX / 1_000_000 * 1_000_000);
    assert_eq!((to_micros(i64::MAX, 1, 1), to_micros(i64::MIN, 1, 1)), (i64::MAX, i64::MIN));
    assert_eq!(trim_video(&vec![i64::MIN, i64::MAX], i64::MAX), 1);
    assert_eq!(to_ticks(i64::MAX, 1, i32::MAX), i64::MAX);
}

#[test]
fn queues_are_trimmed_and_shipped() {
    assert_eq!(trim_video(&vec![0, 40_000, 70_000], 100_000), 2);
    assert_eq!(trim_video(&vec![0], 100_000), 0);
    assert_eq!(count_due(&vec![0, 150_000, 150_001], 0), 2);
    assert_eq!(count_due(&vec![], 0), 0);
}

#[test]
fn reading_on_is_bounded() {
    assert!(reads_on(None, &None, 0, 0));
    assert!(reads_on(Some(249_999), &None, 0, 7));
    assert!(!reads_on(Some(250_000), &None, 0, 0));
    assert!(!reads_on(None, &None, 0, 8));
    assert!(follows_on(Some(199_999), &None, 0, 9));
    assert!(!follows_on(Some(200_000), &None, 0, 0));
    assert!(!follows_on(None, &None, 0, 10));
    let mut q = SoundQueue::new(48_000);
    assert!(reads_on(Some(250_000), &Some(q), 0, 0));
    q.arrive(0, 12_000);
    assert!(!reads_on(Some(250_000), &Some(q), 0, 0));
}

#[test]
fn neighbours_seek_when_they_are_lost() {
    assert!(has_lost(None, true, 0));
    assert!(!has_lost(Some(0), false, 1_500_000));
    assert!(has_lost(Some(0), false, 1_500_001));
    assert!(!has_lost(Some(500_000), false, 0));
    assert!(has_lost(Some(500_001), false, 0));
    assert!(!has_lost(Some(500_001), true, 0));
    assert!(is_primed(1, 7, 7) && !is_primed(0, 7, 7) && !is_primed(1, 6, 7));
}

#[test]
fn programs_roll_over() {
    assert!(rollover(1, 2, false, None, 0));
    assert!(!rollover(1, 1, false, None, 0));
    assert!(rollover(1, 1, true, None, 0));
    assert!(!rollover(1, 1, true, Some(0), 0));
    assert!(rollover(1, 1, false, Some(1_000_001), 0));
    assert!(preopens(2_999_999, false, None, 3));
    assert!(!preopens(3_000_000, false, None, 3));
    assert!(!preopens(0, true, None, 3));
    assert!(!preopens(0, false, Some(3), 3));
    assert!(preopens(0, false, Some(2), 3));
    assert_eq!(choose_source(Some(3), Some(3), 3), Source::Slot);
    assert_eq!(choose_source(Some(2), Some(3), 3), Source::Next);
    assert_eq!(choose_source(None, Some(2), 3), Source::Cold);
}

#[test]
fn only_the_latest_command_matters() {
    let more = vec![Cmd::Stop, Cmd::Tune { src: 5, gen: 9, guide: false }, Cmd::Music(true)];
    assert_eq!(merge(1, 2, false, &more), Order { src: 5, gen: 9, guide: true, stop: false });
    assert_eq!(merge(1, 2, true, &vec![Cmd::Stop]), Order { src: 1, gen: 2, guide: true, stop: true });
}

#[test]
fn the_deck_plays_parks_and_rolls() {
    let mut d = Deck::new();
    assert!(d.waits());
    assert_eq!(d.pass(0, false, None, 0), Pass::Idle);
    assert_eq!(d.command(Some(Cmd::Tune { src: 3, gen: 1, guide: false }), &vec![]), Act::Switch(3));
    assert_eq!(d.leave_for(3), None);
    assert_eq!(d.find(None, 40), Source::Cold);
    assert!(!d.land(Some(40), 0));
    assert!(!d.waits());
    assert_eq!(d.pass(40, false, Some(0), 0), Pass::Play);
    assert_eq!(d.pass(41, false, Some(0), 0), Pass::Roll(3));
    assert!(d.open_ahead(1_000_000, 41));
    assert!(!d.open_ahead(1_000_000, 41));
    d.opened(Some(41));
    assert_eq!(d.leave_for(3), Some(3));
    assert_eq!(d.find(Some(40), 41), Source::Next);
    assert_eq!(d.next, None);
    assert!(d.land(Some(41), 2));
    assert_eq!(d.command(Some(Cmd::Music(true)), &vec![]), Act::Hush);
    assert!(d.guide);
    assert_eq!(d.command(None, &vec![]), Act::Stay);
    assert_eq!(d.command(Some(Cmd::Tune { src: 4, gen: 2, guide: false }), &vec![Cmd::Stop]), Act::Park);
    assert_eq!(d.park(), Some(3));
    assert_eq!(d.park(), None);
    assert_eq!(d.pass(41, false, Some(0), 0), Pass::Idle);
    assert_eq!(d.command(Some(Cmd::Stop), &vec![]), Act::Park);
}

#[test]
fn workers_keep_neighbours_hot() {
    let files: Vec<FileInfo> = (0..4)
        .map(|i| FileInfo {
            path: format!("/{i}"),
            stem: String::new(),
            folder: None,
            duration: 10,
            width: 1,
            height: 1,
            title: None,
            bumper: false,
        })
        .collect();
    let nets = vec![Network { name: "N".to_string(), logo: None }];
    let st = assemble(files, 4, make_styles(5, 1), nets, &vec![], true);
    assert_eq!(st.worker_job(0, 1), Job::Skip);
    assert_eq!(st.worker_job(1, 1), Job::Skip);
    assert_eq!(st.worker_job(2, 1), Job::Follow);
    assert_eq!(st.worker_job(3, 1), Job::Prime);
    assert_eq!(st.worker_job(5, 1), Job::Skip);
    assert_eq!(st.worker_job(4, usize::MAX), Job::Prime);
    assert!(has_left(true, 2, 2) && !has_left(false, 2, 2) && !has_left(true, 2, 3));
}

#[test]
fn native_formats_come_first() {
    let o = |native: bool, software: bool| Offer { native, software };
    assert_eq!(pick_format(&vec![o(false, true), o(true, false)]), Some(1));
    assert_eq!(pick_format(&vec![o(false, false), o(false, true)]), Some(1));
    assert_eq!(pick_format(&vec![o(false, false)]), None);
}

#[test]
fn the_knob_is_squared() {
    let s = |volume: u32, muted: bool| Sound { volume, muted, snow: 0 };
    assert_eq!(gain(&s(20, false)), 1_000_000);
    assert_eq!(gain(&s(10, false)), 250_000);
    assert_eq!(gain(&s(12, false)), 360_000);
    assert_eq!(gain(&s(12, true)), 0);
}

#[test]
fn noise_is_a_xorshift() {
    let mut x: u64 = 0x1234_5678_9ABC_DEF1;
    let mut y = x;
    for _ in 0..50 {
        y ^= y << 13;
        y ^= y >> 7;
        y ^= y << 17;
        x = noise_next(x);
        assert_eq!(x, y);
        assert_ne!(x, 0);
        assert_eq!(noise_level(x), (x >> 40) as i32 - 8_388_608);
    }
}

#[test]
fn sound_keeps_its_lead() {
    let mut q = SoundQueue::new(1000);
    assert!(!q.covers(0, 0));
    q.arrive(0, 500);
    assert!(q.covers(500_000, 0) && !q.covers(500_001, 0) && q.covers(0, 500_000) && !q.covers(i64::MAX, 1));
    assert_eq!(q.trim(100_000), 100);
    let f = q.feed(100_000, 0, 2);
    assert_eq!((f.trim, f.push, f.drop), (0, 100, 0));
    // What the device did not take by then is cut back.
    let f = q.feed(200_000, 2000, 2);
    assert_eq!(f.push, 100);
    assert_eq!(f.drop, 2000 + 200 - 500);
    q.clear();
    assert_eq!(q.len, 0);
}

#[test]
fn music_is_drawn_from_the_clock() {
    assert_eq!(music_seed(1000), 1000 ^ 0x00C0_FFEE_1234_5678);
    let (i, r) = pick_track(7, 10);
    let x = 7u64.wrapping_mul(6364136223846793005).wrapping_add(1442695040888963407);
    assert_eq!((i, r), (((x >> 33) % 10) as usize, x));
    let (p, r2) = drop_point(r, 1_000_000);
    let y = r.wrapping_mul(6364136223846793005).wrapping_add(1442695040888963407);
    assert_eq!((p, r2), (((y >> 11) % 700_000) as i64, y));
    assert_eq!(drop_point(r, 1).0, 0);
    assert!(wants_music(14_399, 96_000, 0) && !wants_music(14_400, 96_000, 0));
    assert!(!wants_music(0, 96_000, 200));
}
