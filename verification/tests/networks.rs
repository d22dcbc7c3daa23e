use tuner::networks::{
    frame_picture, load_logo, load_networks, make_styles, window_icon, Frame, PngFile,
};
use tuner::raster::{blit_logo, scale_logo};
use tuner::networks::Logo;

fn png_of(w: u32, h: u32, color: png::ColorType, data: &[u8]) -> Vec<u8> {
    let mut out = Vec::new();
    let mut enc = png::Encoder::new(&mut out, w, h);
    enc.set_color(color);
    enc.set_depth(png::BitDepth::Eight);
    enc.write_header().unwrap().write_image_data(data).unwrap();
    out
}

fn file(stem: &str) -> PngFile {
    PngFile { stem: stem.to_string(), bytes: png_of(1, 1, png::ColorType::Rgba, &[1, 2, 3, 4]) }
}

fn names(v: &[&str]) -> Vec<String> {
    v.iter().map(|s| s.to_string()).collect()
}

#[test]
fn logos_of_every_colour_type_become_rgba() {
    let l = load_logo(&png_of(2, 1, png::ColorType::Rgba, &[1, 2, 3, 4, 5, 6, 7, 8])).unwrap();
    assert_eq!((l.w, l.h), (2, 1));
    assert_eq!(l.rgba, [1, 2, 3, 4, 5, 6, 7, 8]);
    let l = load_logo(&png_of(1, 2, png::ColorType::Rgb, &[1, 2, 3, 5, 6, 7])).unwrap();
    assert_eq!(l.rgba, [1, 2, 3, 255, 5, 6, 7, 255]);
    let l = load_logo(&png_of(2, 1, png::ColorType::Grayscale, &[9, 200])).unwrap();
    assert_eq!(l.rgba, [9, 9, 9, 255, 200, 200, 200, 255]);
    let l = load_logo(&png_of(1, 1, png::ColorType::GrayscaleAlpha, &[9, 100])).unwrap();
    assert_eq!(l.rgba, [9, 9, 9, 100]);
    assert!(load_logo(&vec![1, 2, 3]).is_none());
}

#[test]
fn the_window_icon_is_in_colour() {
    let bytes = png_of(1, 1, png::ColorType::Rgb, &[1, 2, 3]);
    assert_eq!(window_icon(&bytes).unwrap().rgba, [1, 2, 3, 255]);
    assert!(window_icon(&png_of(1, 1, png::ColorType::Grayscale, &[9])).is_none());
    assert!(window_icon(&vec![]).is_none());
}

#[test]
fn frames_of_an_unknown_kind_have_no_picture() {
    let f = Frame { w: 1, h: 1, color: 3, data: vec![0; 8] };
    assert!(frame_picture(&f).is_none());
}

#[test]
fn the_order_of_ident_folders_does_not_matter() {
    let load = |v: &[&str]| -> Vec<(String, bool)> {
        let nets = load_networks(&vec![file("FOX (US)"), file("ABC")], &names(v));
        nets.into_iter().map(|n| (n.name, n.logo.is_some())).collect()
    };
    let want = load(&["NBC", "abc", "CNN", "HBO"]);
    assert_eq!(want.len(), 5);
    assert_eq!(load(&["HBO", "CNN", "abc", "NBC"]), want);
    assert_eq!(load(&["CNN", "NBC", "HBO", "abc"]), want);
}

#[test]
fn the_dressing_does_not_depend_on_the_number_of_channels() {
    let (a, b) = (make_styles(30, 7), make_styles(12, 5));
    for ch in 0..=12 {
        let mut x = b[ch];
        x.net = a[ch].net;
        assert_eq!(a[ch], x);
    }
    assert_eq!(make_styles(12, 7)[..], a[..13]);
}

#[test]
fn networks_are_distinct_and_shuffled_alike_every_time() {
    let files = || vec![file("FOX (US)"), file("fox"), file("ABC"), file(" (x)")];
    let nets = load_networks(&files(), &names(&["abc", "NBC", "", "nbc"]));
    let mut got: Vec<String> = nets.iter().map(|n| n.name.clone()).collect();
    let again: Vec<String> =
        load_networks(&files(), &names(&["abc", "NBC"])).into_iter().map(|n| n.name).collect();
    assert_eq!(got, again);
    assert!(nets.iter().all(|n| n.logo.is_some() == (n.name != "NBC")));
    // The fixed shuffle of three sorted names.
    let mut want = vec!["ABC", "FOX", "NBC"];
    let mut rng: u64 = 0x10C0_5A11_7E1E_0001;
    for i in (1..want.len()).rev() {
        rng = rng.wrapping_mul(6364136223846793005).wrapping_add(1442695040888963407);
        want.swap(i, ((rng >> 33) % (i as u64 + 1)) as usize);
    }
    assert_eq!(got, want);
    got.sort();
    assert_eq!(got, ["ABC", "FOX", "NBC"]);
}

#[test]
fn a_broken_logo_leaves_its_name_free() {
    let broken = PngFile { stem: "FOX".to_string(), bytes: vec![0] };
    let nets = load_networks(&vec![broken, file("FOX (2)")], &vec![]);
    assert_eq!(nets.len(), 1);
    assert!(nets[0].logo.is_some());
}

#[test]
fn without_networks_there_is_one() {
    let nets = load_networks(&vec![], &vec![]);
    assert_eq!(nets.len(), 1);
    assert_eq!(nets[0].name, "TUNER");
    assert!(nets[0].logo.is_none());
    assert_eq!(nets[0].copy().name, "TUNER");
}

#[test]
fn styles_are_fixed_per_channel() {
    let got = make_styles(40, 7);
    assert_eq!(got.len(), 41);
    for ch in 0..=40usize {
        let mut x = (ch as u64 + 7).wrapping_mul(0x9E37_79B9_7F4A_7C15);
        let mut r = || {
            x = x.wrapping_mul(6364136223846793005).wrapping_add(1442695040888963407);
            ((x >> 40) % 1000) as u32
        };
        let (bug, alpha, clock, ticker, col) = (r(), r(), r(), r(), r());
        let s = got[ch];
        assert_eq!(s.net, ch.saturating_sub(1) % 7);
        assert_eq!(s.bug, if bug < 450 { 1 } else if bug < 550 { 2 } else if bug < 620 { 3 } else { 0 });
        assert_eq!(s.bug_alpha as u32, 0x70 + alpha % 0x70);
        assert_eq!(s.clock, clock < 250);
        assert_eq!(s.ticker, ticker < 200);
        assert_eq!(s.ticker_color, [0x00_a0_10_10, 0x00_10_30_a0, 0x00_20_20_20, 0x00_80_10_60][(col % 4) as usize]);
    }
    assert!(make_styles(3, 0).iter().all(|s| s.net == 0));
}

#[test]
fn scaling_averages_by_opacity() {
    let l = Logo { w: 2, h: 2, rgba: vec![200, 100, 0, 255, 10, 10, 10, 0, 100, 0, 50, 255, 9, 9, 9, 0] };
    let s = scale_logo(&l, 1, 1);
    assert_eq!((s.w, s.h), (1, 1));
    assert_eq!(s.rgba, [150, 50, 25, 127]);
    let up = scale_logo(&l, 4, 2);
    assert_eq!(up.rgba[..8], [200, 100, 0, 255, 200, 100, 0, 255]);
    let none = scale_logo(&Logo { w: 1, h: 1, rgba: vec![7, 7, 7, 0] }, 0, 0);
    assert_eq!(none.rgba, [0, 0, 0, 0]);
}

#[test]
fn a_plain_logo_stays_plain_when_scaled() {
    let l = Logo { w: 3, h: 2, rgba: [9, 8, 7, 200].repeat(6) };
    assert_eq!(scale_logo(&l, 5, 4).rgba, [9, 8, 7, 200].repeat(20));
    assert_eq!(scale_logo(&l, 2, 1).rgba, [9, 8, 7, 200].repeat(2));
}

#[test]
fn logos_are_mixed_into_the_overlay() {
    let l = Logo { w: 1, h: 1, rgba: vec![255, 128, 0, 255] };
    let mut buf = vec![0u32; 4];
    blit_logo(&mut buf, 2, 2, 1, 1, &l, 255);
    assert_eq!(buf, [0, 0, 0, 0xFF_FF_80_00]);
    blit_logo(&mut buf, 2, 2, -1, 0, &l, 255);
    blit_logo(&mut buf, 2, 2, 0, 5, &l, 255);
    blit_logo(&mut buf, 2, 2, 0, 0, &l, 0);
    assert_eq!(buf, [0, 0, 0, 0xFF_FF_80_00]);
    let white = Logo { w: 1, h: 1, rgba: vec![255; 4] };
    let mut faint = vec![0x05_FF_FF_FFu32];
    blit_logo(&mut faint, 1, 1, 0, 0, &white, 0xD0);
    assert_eq!(faint, [0xD0_FF_FF_FF]);
    let mut back = vec![0xFF_00_00_FFu32];
    blit_logo(&mut back, 1, 1, 0, 0, &l, 0x80);
    let (a, a0) = (0x80u32, 0xFFu32);
    let ao = a + a0 * (255 - a) / 255;
    let mix = |c: u32, c0: u32| (c * a + c0 * a0 * (255 - a) / 255) / ao;
    assert_eq!(back[0], (ao << 24) | (mix(255, 0) << 16) | (mix(128, 0) << 8) | mix(0, 255));
}
