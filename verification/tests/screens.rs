use tuner::draw::{
    is_drawable, is_op_within, is_roomy, is_within, paint, Ink, Op, Rect, GUIDE_BLUE, GUIDE_DARK, GUIDE_GRAY,
    GUIDE_HILITE, GUIDE_WHITE, GUIDE_YELLOW,
};
use tuner::dressing::{crawl_line, draw_dressing, size_bug, tag_line};
use tuner::guide::{
    channel_in_row, draw_guide, draw_guide_frame, guide_ad, guide_rows, ticker_line, visible_rows,
    GuideView,
};
use tuner::networks::ChanStyle;
use tuner::picture::{picture_place, place_picture, upload, Place, Upload};
use tuner::raster::{bevel, draw_text, fill_rect, tint_rect, Clip, Glyph};
use tuner::screens::{
    banner_heading, draw_banner, draw_boot, draw_help, draw_menu, draw_mute, draw_number,
    draw_volume, fmt_left,
};
use tuner::settings::{Settings, MENU_ZIP};
use tuner::station::ChanInfo;

const W: u32 = 1280;
const H: u32 = 720;

fn info() -> ChanInfo {
    ChanInfo {
        net: "HOME BOX OFFICE".to_string(),
        now: "THE LATE LATE MOVIE OF THE WEEK".to_string(),
        next: "NEWS".to_string(),
        left: 65_000_000,
        done: 1,
        of: 2,
    }
}

fn texts(v: &[Op]) -> Vec<(String, Ink)> {
    v.iter().filter_map(|o| if let Op::Text(s, i) = o { Some((s.clone(), *i)) } else { None }).collect()
}

fn all_fit(v: &[Op], w: u32, h: u32) {
    let mut buf = vec![0u32; (w * h) as usize];
    for o in v {
        assert!(is_op_within(o, w, h));
        paint(&mut buf, w, h, o);
    }
}

fn style() -> ChanStyle {
    ChanStyle { net: 0, bug: 1, bug_alpha: 0x80, clock: true, ticker: true, ticker_color: 0x00_a0_10_10 }
}

#[test]
fn times_left_are_hours_minutes_seconds() {
    assert_eq!(fmt_left(65_000_000), "1:05");
    assert_eq!(fmt_left(3_600_000_000), "1:00:00");
    assert_eq!(fmt_left(0), "0:00");
}

#[test]
fn rectangles_are_filled_tinted_and_bevelled() {
    let mut b = vec![0u32; 12];
    fill_rect(&mut b, 4, 1, 1, 3, 2, 7);
    assert_eq!(b, [0, 0, 0, 0, 0, 7, 7, 0, 0, 0, 0, 0]);
    let mut b = vec![0xFF_10_20_30u32; 1];
    tint_rect(&mut b, 1, 0, 0, 1, 1, 0x00_ff_00_10, 255);
    assert_eq!(b[0], 0xFF_ff_00_10);
    // No channel passes the brightest value.
    let mut b = vec![0x05_ff_ff_ffu32];
    tint_rect(&mut b, 1, 0, 0, 1, 1, 0x00_ff_ff_ff, 0xD0);
    assert_eq!(b[0], 0xD0_ff_ff_ff);
    let mut b = vec![0u32; 25];
    bevel(&mut b, 5, 0, 0, 5, 5, 1, true);
    assert_eq!((b[0], b[24], b[12]), (0xFF_c0_c0_ff, 0xFF_00_00_28, 0));
    let mut s = vec![0u32; 25];
    bevel(&mut s, 5, 0, 0, 5, 5, 1, false);
    assert_eq!((s[0], s[24]), (0xFF_00_00_28, 0xFF_c0_c0_ff));
    assert!(is_within(&Rect { x0: 0, y0: 0, x1: 4, y1: 3 }, 4, 3));
    assert!(!is_within(&Rect { x0: 0, y0: 0, x1: 5, y1: 3 }, 4, 3));
}

#[test]
fn characters_have_a_shadow_and_keep_to_the_clip() {
    let dot = |pen: i32| Glyph { pen, xmin: 0, ymin: 0, width: 1, height: 1, bitmap: vec![128] };
    let mut b = vec![0u32; 64];
    draw_text(&mut b, 8, 8, &vec![dot(2)], 14, 4, 0x00_11_22_33, &Clip { top: 0, bottom: i32::MAX });
    assert_eq!(b[3 * 8 + 2], 0xFF_11_22_33);
    assert_eq!(b[5 * 8 + 4], 0xFF_00_00_00);
    assert_eq!(b.iter().filter(|p| **p != 0).count(), 2);
    let mut c = vec![0u32; 64];
    draw_text(&mut c, 8, 8, &vec![dot(2), dot(-5)], 14, 4, 1, &Clip { top: 4, bottom: 6 });
    assert_eq!(c.iter().filter(|p| **p != 0).count(), 1);
    let mut d = vec![0u32; 64];
    let faint = Glyph { bitmap: vec![127], ..dot(2) };
    draw_text(&mut d, 8, 8, &vec![faint], 14, 4, 1, &Clip { top: 0, bottom: 8 });
    assert!(d.iter().all(|p| *p == 0));
}

#[test]
fn the_channel_number_stands_top_right() {
    let mut v = Vec::new();
    draw_number(&mut v, 7, "", 2, 0x2cf53c, W, H);
    draw_number(&mut v, 7, "1", 3, 0x2cf53c, W, H);
    let t = texts(&v);
    assert_eq!((t[0].0.as_str(), t[1].0.as_str()), ("07", "1--"));
    assert_eq!((t[0].1.px, t[0].1.x, t[0].1.baseline, t[0].1.right), (79, 1203, 50 + 79, true));
}

#[test]
fn the_banner_tells_what_is_on() {
    assert_eq!(banner_heading(7, "HOME BOX OFFICE"), "07 HOME BOX OFF");
    let mut v = Vec::new();
    draw_banner(&mut v, 7, &info(), "9:05 PM".to_string(), 100, 0x2cf53c, W, H);
    all_fit(&v, W, H);
    let t: Vec<String> = texts(&v).into_iter().map(|t| t.0).collect();
    assert_eq!(
        t,
        ["07 HOME BOX OFF", "THE LATE LATE MOVIE OF THE", "NEXT  NEWS", "9:05 PM", "1:05 LEFT"]
    );
    let (x0, x1) = (51 + 25, 1228 - 25);
    let bars: Vec<Rect> =
        v.iter().filter_map(|o| if let Op::Fill(r, _) = o { Some(*r) } else { None }).collect();
    assert_eq!((bars[0].x0, bars[0].x1), (x0, x1));
    assert_eq!(bars[1].x1, x0 + 1 + (x1 - x0 - 2) / 2);
    // Nothing left of it, nothing said.
    let mut q = Vec::new();
    draw_banner(&mut q, 7, &ChanInfo { left: 0, ..info() }, String::new(), 0, 0, W, H);
    assert_eq!(texts(&q).len(), 4);
}

#[test]
fn the_volume_bar_has_a_segment_per_step() {
    let mut v = Vec::new();
    draw_volume(&mut v, 12, false, 200, 0x2cf53c, W, H);
    all_fit(&v, W, H);
    assert_eq!(texts(&v)[0].0, "VOLUME");
    let fills = v.iter().filter(|o| matches!(o, Op::Fill(_, _))).count();
    assert_eq!(fills, 20 * 2 + 8);
    let mut m = Vec::new();
    draw_volume(&mut m, 12, true, 200, 0x2cf53c, W, H);
    assert_eq!(texts(&m)[0].0, "MUTE");
    assert_eq!(m.iter().filter(|o| matches!(o, Op::Fill(_, _))).count(), 20 * 3);
    // Segments that do not fit are left out.
    let mut n = Vec::new();
    draw_volume(&mut n, 20, false, 200, 0x2cf53c, 320, 200);
    all_fit(&n, 320, 200);
    assert!(n.len() < v.len());
    let mut b = Vec::new();
    draw_mute(&mut b, 0x2cf53c, W, H);
    assert_eq!(texts(&b)[0].0, "MUTE");
}

#[test]
fn the_legend_lists_the_keys() {
    let mut v = Vec::new();
    draw_help(&mut v, 0x2cf53c, W, H);
    all_fit(&v, W, H);
    let t: Vec<String> = texts(&v).into_iter().map(|t| t.0).collect();
    assert_eq!(t.len(), 25);
    assert_eq!((t[0].as_str(), t[1].as_str(), t[2].as_str()), ("REMOTE CONTROL", "UP/DOWN", "CHANNEL +/-  (GUIDE: MOVE CURSOR)"));
    assert_eq!((t[23].as_str(), t[24].as_str()), ("ESC", "POWER OFF"));
    let mut small = Vec::new();
    draw_help(&mut small, 0, 320, 200);
    all_fit(&small, 320, 200);
}

#[test]
fn the_menu_scrolls_with_its_cursor() {
    let s = Settings::default();
    for sel in 0..16usize {
        let mut v = Vec::new();
        draw_menu(&mut v, &s, sel, "44", false, "/cfg/tuner_settings.json", 50, W, H);
        all_fit(&v, W, H);
        let t: Vec<String> = texts(&v).into_iter().map(|t| t.0).collect();
        let top = sel.saturating_sub(4).min(7);
        assert_eq!(t.contains(&"^".to_string()), top > 0);
        assert_eq!(t.contains(&"v".to_string()), top + 9 < 16);
        assert_eq!(t.iter().filter(|x| *x == ">").count(), 1);
        assert_eq!(t[t.len() - 1], "FILE: /CFG/TUNER_SETTINGS.JSON");
        assert_eq!(t[t.len() - 2], "WEATHER: CLEVELAND, OH");
    }
    let mut v = Vec::new();
    draw_menu(&mut v, &s, MENU_ZIP, "44", true, "", 50, W, H);
    let t: Vec<String> = texts(&v).into_iter().map(|t| t.0).collect();
    assert!(t.contains(&"  44---  ".to_string()) && t.contains(&"LOOKING UP ZIP...".to_string()));
    let mut v = Vec::new();
    draw_menu(&mut v, &s, 0, "", false, "", 50, W, H);
    let t: Vec<String> = texts(&v).into_iter().map(|t| t.0).collect();
    assert!(t.contains(&"< OFF >".to_string()) && t.contains(&"  45%  ".to_string()));
}

#[test]
fn the_loading_screen_counts_dots() {
    let v = draw_boot("INDEXING", 800_000, 600_000, 0x2cf53c, W, H);
    let t = texts(&v);
    assert_eq!(t[0].0, "PLEASE STAND BY");
    assert_eq!(t[0].1.x, ((1280.0 - 600.0) / 2.0) as i32);
    assert_eq!(t[1].0, "INDEXING..");
    assert_eq!(texts(&draw_boot("X", 1_600_000, 1, 0, W, H))[1].0, "X");
}

#[test]
fn the_guide_lists_channels_from_its_top_row() {
    assert_eq!(guide_ad(W, H), Rect { x0: 704, y0: 28, x1: 1241, y1: 338 });
    let rows = visible_rows(H);
    let px_row = (720.0f32 * 0.045) as u32;
    let want = ((673.0 - 403.0) / (px_row as f32 * 1.5)).ceil() as usize + 1;
    assert_eq!(rows, want);
    assert_eq!(channel_in_row(4, 0, 5), 5);
    assert_eq!(channel_in_row(4, 1, 5), 1);
    assert_eq!(channel_in_row(-1, 0, 5), 5);
    let infos: Vec<ChanInfo> = (0..rows).map(|_| info()).collect();
    let g = GuideView { preview: 3, sel: 5, top: 4, since_step: 0, auto: false, music: String::new(), now: 0 };
    let mut v = draw_guide_frame(W, H);
    draw_guide(&mut v, &g, &info(), 5, &infos, "FRI DEC 31".to_string(), "9:05:07 PM".to_string(), 3_000_000, W, H);
    all_fit(&v, W, H);
    let t = texts(&v);
    assert_eq!(t[0].0, "SELECTED  CH 03  HOME BOX OFFIC");
    let nums: Vec<&str> = t.iter().filter(|x| x.0.len() == 2 && x.0 != "CH").map(|x| x.0.as_str()).collect();
    assert_eq!(nums[..3], ["05", "01", "02"]);
    assert!(v.iter().any(|o| matches!(o, Op::Fill(_, c) if *c == GUIDE_HILITE | 0xFF00_0000)));
    assert!(t.iter().any(|x| x.0 == "FRI DEC 31" && x.1.color == GUIDE_GRAY));
    assert!(matches!(v[0], Op::Clear(c) if c == GUIDE_BLUE | 0xFF00_0000));
    let auto = GuideView { auto: true, since_step: 1_750_000, music: "song".to_string(), ..g };
    let mut a = draw_guide_frame(W, H);
    draw_guide(&mut a, &auto, &info(), 5, &infos, String::new(), String::new(), 3_000_000, W, H);
    all_fit(&a, W, H);
    assert!(texts(&a)[0].0.starts_with("PREVIEW"));
    assert!(!a.iter().any(|o| matches!(o, Op::Fill(_, c) if *c == GUIDE_HILITE | 0xFF00_0000)));
    assert!(a.iter().any(|o| matches!(o, Op::Fill(_, c) if *c == GUIDE_DARK | 0xFF00_0000)));
}

#[test]
fn the_ticker_says_which_keys_work() {
    assert_eq!(ticker_line(true, ""), "PREVUE  *  ENTER WATCHES THE PREVIEW  *  G INTERACTIVE GUIDE  *  H HELP  *  ");
    assert_eq!(
        ticker_line(false, "Ana - Blue"),
        "GUIDE  *  UP/DOWN SELECT  *  ENTER TUNE  *  G CLOSE  *  H HELP  *  NOW PLAYING: ANA - BLUE  *  "
    );
}

#[test]
fn cursor_rows_are_those_in_view() {
    for h in [200u32, 480, 720, 1080, 2160] {
        let px = (h as f32 * 0.045) as u32;
        let rows = ((h as f32 * 0.935) as u32 as f32 - (h as f32 * 0.56) as u32 as f32) / (px as f32 * 1.5);
        assert!((guide_rows(h) - rows as i64).abs() <= 1, "{h}");
        assert!(guide_rows(h) >= 2);
    }
}

#[test]
fn the_news_are_one_line() {
    assert_eq!(crawl_line(" one \n\n two"), "one   *   two   *   ");
    assert_eq!(tag_line("Home Box Office"), " HOME BOX O NEWS ");
}

#[test]
fn a_channel_is_dressed_by_its_style() {
    let s = Settings::default();
    let mut v = Vec::new();
    draw_dressing(&mut v, &s, &style(), "HBO", "a   *   ", 90, 800_000, 0, Some("9:05 PM".to_string()), Some((64, 40)), W, H);
    all_fit(&v, W, H);
    let t = texts(&v);
    let band = (720.0f32 * 0.935) as i32;
    assert!(t.iter().filter(|x| x.0 == "a   *   ").all(|x| x.1.top == band && x.1.color == GUIDE_WHITE));
    assert_eq!(t.iter().filter(|x| x.0 == " HBO NEWS ").count(), 1);
    assert_eq!(t[t.len() - 1].0, "9:05 PM");
    let bug = v.iter().find_map(|o| if let Op::Bug(x, y, a) = o { Some((*x, *y, *a)) } else { None });
    assert_eq!(bug, Some((1280 - 64 - 64, 720 - 50 - 40, 0x80)));
    let mut q = Vec::new();
    let plain = Settings { ticker: false, logos: false, ..Settings::default() };
    draw_dressing(&mut q, &plain, &style(), "HBO", "a", 90, 800_000, 0, None, Some((64, 40)), W, H);
    assert!(q.is_empty());
    // No clock where the settings or the style have none, whatever time it is.
    for (clocks, clock) in [(false, true), (true, false)] {
        let mut q = Vec::new();
        let s = Settings { ticker: false, clocks, ..Settings::default() };
        let y = ChanStyle { bug: 3, clock, ..style() };
        draw_dressing(&mut q, &s, &y, "HBO", "a", 90, 800_000, 0, Some("9:05 PM".to_string()), Some((64, 40)), W, H);
        assert!(texts(&q).is_empty());
        assert!(matches!(q[0], Op::Bug(64, 50, 0x80)));
    }
    let mut tl = Vec::new();
    let top_left = ChanStyle { bug: 3, ticker: false, ..style() };
    draw_dressing(&mut tl, &s, &top_left, "HBO", "a", 90, 800_000, 0, Some("x".to_string()), Some((64, 40)), W, H);
    assert!(matches!(tl[1], Op::Bug(64, 100, 0x80)));
}

#[test]
fn bugs_are_scaled_to_the_window() {
    // As high as 9% of the window, no wider than 20% of it.
    assert_eq!(size_bug(200, 100, W, H), Some((128, 64)));
    assert_eq!(size_bug(1000, 10, W, H), Some((256, 2)));
}

#[test]
fn pictures_keep_their_shape() {
    assert_eq!(place_picture(0, 0, 640, 480, W, H), Place { x: 160, y: 0, w: 960, h: 720 });
    assert_eq!(place_picture(3, 0, 640, 480, W, H), Place { x: 0, y: 0, w: 1280, h: 720 });
    assert_eq!(place_picture(1, 0, 1920, 1080, W, H), Place { x: 160, y: 0, w: 960, h: 720 });
    assert_eq!(place_picture(0, 0, 1920, 800, W, H), Place { x: 0, y: 93, w: 1280, h: 533 });
    assert_eq!(place_picture(2, 100_000, 640, 480, W, H), Place { x: -64, y: -36, w: 1408, h: 792 });
    for (fw, fh) in [(720u32, 576u32), (352, 288), (1918, 802), (480, 854), (1, 1000)] {
        for over in [-100_000, -30_000, 0, 50_000] {
            let p = place_picture(0, over, fw, fh, W, H);
            let shape = fw as f64 / fh as f64;
            let dh = ((1280.0 / shape).min(720.0) * (1.0 + over as f64 / 1e6)).max(2.0);
            let dw = (dh * shape).max(2.0);
            assert!(over > 0 || (p.x >= 0 && p.y >= 0 && p.x + p.w as i64 <= W as i64 && p.y + p.h as i64 <= H as i64));
            assert!((p.w as f64 - dw).abs() <= 1.0 && (p.h as f64 - dh).abs() <= 1.0);
        }
    }
    let s = Settings::default();
    assert_eq!(picture_place(&s, true, Some((640, 480)), W, H), Place { x: 704, y: 28, w: 537, h: 310 });
    assert_eq!(picture_place(&s, false, None, W, H), Place { x: 0, y: 0, w: W, h: H });
}

#[test]
fn the_overlay_is_uploaded_while_it_shows() {
    assert_eq!(upload(true, false, false), (Upload::Draw, true));
    assert_eq!(upload(false, true, false), (Upload::Wipe, false));
    assert_eq!(upload(false, false, true), (Upload::Wipe, false));
    assert_eq!(upload(false, false, false), (Upload::Keep, false));
    assert!(is_roomy(320, 200) && !is_roomy(319, 200) && !is_roomy(320, 199) && is_roomy(u32::MAX, 200));
    assert!(is_drawable(320, 200) && !is_drawable(u32::MAX, 200) && !is_drawable(319, 200));
    assert_eq!(GUIDE_YELLOW, 0x00_ff_e0_40);
}
