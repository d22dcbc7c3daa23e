//! One output frame: where the picture stands, and which layers lie over it.

use vstd::prelude::*;
use crate::draw::{is_roomy, roomy};
use crate::guide::{ad_box, guide_ad};
use crate::networks::ChanStyle;
use crate::settings::{Settings, SettingsView};
use crate::station::Station;
use crate::tv::{Tv, TvView};

verus! {

// ---------------------------------------------------------------- where the picture stands

/// Where the picture stands, in pixels; with overscan it can reach past the window, which crops it.
#[derive(Clone, Copy, PartialEq, Eq, Structural, Debug)]
pub struct Place {
    pub x: i64,
    pub y: i64,
    pub w: u32,
    pub h: u32,
}

/// The shape of the picture, width to height: FIT keeps the file's; 4:3 and 16:9 force one;
/// STRETCH fills the window.
pub open spec fn shape(aspect: usize, fw: int, fh: int, w: int, h: int) -> (int, int) {
    if aspect == 1 {
        (4, 3)
    } else if aspect == 2 {
        (16, 9)
    } else if aspect == 3 {
        (w, h)
    } else {
        (
            fw,
            if fh < 1 {
                1
            } else {
                fh
            },
        )
    }
}

pub open spec fn at_most(x: int, most: int) -> int {
    if x > most {
        most
    } else {
        x
    }
}

pub open spec fn at_least(x: int, least: int) -> int {
    if x < least {
        least
    } else {
        x
    }
}

/// The height of the picture as a fraction: as high as the shape lets it be in the window, then
/// scaled by the overscan.
pub open spec fn picture_height(num: int, den: int, overscan: int, w: int, h: int) -> (int, int) {
    let scale = at_least(1_000_000 + overscan, 0);
    if w * den < h * num {
        (w * den * scale, num * 1_000_000)
    } else {
        (h * scale, 1_000_000)
    }
}

/// The size of the picture: two pixels either way at least.
pub open spec fn picture_size(
    aspect: usize,
    overscan: int,
    fw: int,
    fh: int,
    w: int,
    h: int,
) -> (int, int) {
    let (num, den) = shape(aspect, fw, fh, w, h);
    let (n, d) = picture_height(num, den, overscan, w, h);
    if n < 2 * d {
        (at_most(at_least(2 * num / den, 2), u32::MAX as int), 2)
    } else {
        (at_most(at_least(n * num / (d * den), 2), u32::MAX as int), at_most(n / d, u32::MAX as int))
    }
}

/// Half of a number, toward zero.
pub open spec fn half(x: int) -> int {
    if x >= 0 {
        x / 2
    } else {
        -((-x) / 2)
    }
}

/// Where a picture of `dw` by `dh` pixels stands in a window of `w` by `h`: in the middle.
pub open spec fn centred(dw: int, dh: int, w: int, h: int) -> Place {
    Place {
        x: half(w - dw) as i64,
        y: half(h - dh) as i64,
        w: dw as u32,
        h: dh as u32,
    }
}

/// Where the picture of a file of `fw` by `fh` pixels stands. OVERSCAN zooms it past the edges (or
/// shrinks it, if negative).
pub fn place_picture(aspect: usize, overscan: i32, fw: u32, fh: u32, w: u32, h: u32) -> (r: Place)
    requires
        0 < w,
        0 < h,
    ensures
        ({
            let (dw, dh) = picture_size(
                aspect,
                overscan as int,
                fw as int,
                fh as int,
                w as int,
                h as int,
            );
            r == centred(dw, dh, w as int, h as int)
        }),
{
    let (num, den): (u128, u128) = match aspect {
        1 => (4, 3),
        2 => (16, 9),
        3 => (w as u128, h as u128),
        _ => (fw as u128, if fh < 1 { 1 } else { fh as u128 }),
    };
    let raw: i64 = 1_000_000 + overscan as i64;
    let scale: u128 = if raw < 0 { 0 } else { raw as u128 };
    proof {
        let m: int = 0xffff_ffff;
        assert(0 <= w * den <= m * m) by (nonlinear_arith)
            requires
                0 <= w <= m,
                0 <= den <= m,
        ;
        assert(0 <= h * num <= m * m) by (nonlinear_arith)
            requires
                0 <= h <= m,
                0 <= num <= m,
        ;
        assert(0 <= (w * den) * scale <= (m * m) * 0x8010_0000) by (nonlinear_arith)
            requires
                0 <= w * den <= m * m,
                0 <= scale <= 0x8010_0000,
                m == 0xffff_ffff,
        ;
        assert(0 <= h * scale <= m * 0x8010_0000) by (nonlinear_arith)
            requires
                0 <= h <= m,
                0 <= scale <= 0x8010_0000,
                m == 0xffff_ffff,
        ;
    }
    let wide = (w as u128 * den) < (h as u128 * num);
    let n: u128 = if wide { w as u128 * den * scale } else { h as u128 * scale };
    let d: u128 = if wide { num * 1_000_000 } else { 1_000_000 };
    let (dw, dh): (u32, u32) = if n < 2 * d {
        let x: u128 = 2 * num / den;
        (if x < 2 { 2 } else { cap(x) }, 2)
    } else {
        proof {
            let m: int = 0xffff_ffff;
            let most = (m * m) * 0x8010_0000;
            assert(0 <= n * num <= most * m) by (nonlinear_arith)
                requires
                    0 <= n <= most,
                    0 <= num <= m,
                    m == 0xffff_ffff,
                    most == (m * m) * 0x8010_0000,
            ;
            assert(0 < d * den <= (m * 1_000_000) * m) by (nonlinear_arith)
                requires
                    0 < d <= m * 1_000_000,
                    0 < den <= m,
                    m == 0xffff_ffff,
            ;
        }
        let q: u128 = n * num / (d * den);
        let y: u128 = n / d;
        (if q < 2 { 2 } else { cap(q) }, cap(y))
    };
    let dx: i64 = w as i64 - dw as i64;
    let dy: i64 = h as i64 - dh as i64;
    let x: i64 = if dx >= 0 { dx / 2 } else { -((-dx) / 2) };
    let y: i64 = if dy >= 0 { dy / 2 } else { -((-dy) / 2) };
    Place { x, y, w: dw, h: dh }
}

fn cap(x: u128) -> (r: u32)
    ensures
        r == at_most(x as int, u32::MAX as int),
{
    if x > u32::MAX as u128 {
        u32::MAX
    } else {
        x as u32
    }
}

/// Where the picture stands now: stretched over the ad box in the guide, Prevue style; else in the
/// middle of the window. Without a frame it is the whole window.
pub fn picture_place(
    s: &Settings,
    guide: bool,
    frame: Option<(u32, u32)>,
    w: u32,
    h: u32,
) -> (r: Place)
    requires
        0 < w,
        0 < h,
    ensures
        guide ==> r == (Place {
            x: ad_box(w as int, h as int).x0 as i64,
            y: ad_box(w as int, h as int).y0 as i64,
            w: (ad_box(w as int, h as int).x1 - ad_box(w as int, h as int).x0) as u32,
            h: (ad_box(w as int, h as int).y1 - ad_box(w as int, h as int).y0) as u32,
        }),
        !guide && frame is None ==> r == (Place { x: 0, y: 0, w, h }),
        !guide ==> (frame matches Some(f) ==> ({
            let (dw, dh) = picture_size(
                s.aspect,
                s.overscan as int,
                f.0 as int,
                f.1 as int,
                w as int,
                h as int,
            );
            r == centred(dw, dh, w as int, h as int)
        })),
{
    if guide {
        let b = guide_ad(w, h);
        return Place { x: b.x0 as i64, y: b.y0 as i64, w: b.x1 - b.x0, h: b.y1 - b.y0 };
    }
    match frame {
        Some(f) => place_picture(s.aspect, s.overscan, f.0, f.1, w, h),
        None => Place { x: 0, y: 0, w, h },
    }
}

/// Without overscan the picture fits the window and touches it: it is as wide or as high.
pub proof fn the_picture_fits(aspect: usize, fw: int, fh: int, w: int, h: int)
    requires
        2 <= w <= u32::MAX,
        2 <= h <= u32::MAX,
        1 <= fw <= u32::MAX,
        1 <= fh <= u32::MAX,
        picture_size(aspect, 0, fw, fh, w, h).1 > 2,
        picture_size(aspect, 0, fw, fh, w, h).0 > 2,
    ensures
        picture_size(aspect, 0, fw, fh, w, h).0 <= w,
        picture_size(aspect, 0, fw, fh, w, h).1 <= h,
        picture_size(aspect, 0, fw, fh, w, h).0 == w || picture_size(aspect, 0, fw, fh, w, h).1
            == h,
{
    let (num, den) = shape(aspect, fw, fh, w, h);
    let (n, d) = picture_height(num, den, 0, w, h);
    let m: int = 1_000_000;
    if w * den < h * num {
        // As wide as the window: n / d = w * den / num.
        assert(n * num == w * (d * den)) by (nonlinear_arith)
            requires
                n == w * den * m,
                d == num * m,
                m == 1_000_000,
        ;
        assert(d * den > 0) by (nonlinear_arith)
            requires
                d == num * 1_000_000,
                num >= 1,
                den >= 1,
        ;
        vstd::arithmetic::div_mod::lemma_div_multiples_vanish(w, d * den);
        assert((d * den) * w == w * (d * den)) by (nonlinear_arith);
        assert(n < h * d) by (nonlinear_arith)
            requires
                n == (w * den) * 1_000_000,
                d == num * 1_000_000,
                w * den < h * num,
        ;
        vstd::arithmetic::div_mod::lemma_fundamental_div_mod(n, d);
        vstd::arithmetic::div_mod::lemma_mod_bound(n, d);
        if n / d > h {
            assert(d * (n / d) >= d * h) by (nonlinear_arith)
                requires
                    n / d > h,
                    d > 0,
            ;
            assert(d * h == h * d) by (nonlinear_arith);
        }
    } else {
        vstd::arithmetic::div_mod::lemma_div_multiples_vanish(h, m);
        assert(n / d == h);
        assert(n * num <= w * (d * den)) by (nonlinear_arith)
            requires
                n == h * 1_000_000,
                d == 1_000_000,
                h * num <= w * den,
        ;
        assert(d * den > 0) by (nonlinear_arith)
            requires
                d == 1_000_000,
                den >= 1,
        ;
        vstd::arithmetic::div_mod::lemma_div_is_ordered(n * num, w * (d * den), d * den);
        vstd::arithmetic::div_mod::lemma_div_multiples_vanish(w, d * den);
        assert((d * den) * w == w * (d * den)) by (nonlinear_arith);
    }
}

// ---------------------------------------------------------------- which layers lie over it

/// The layers of the overlay, from the bottom up.
#[derive(Clone, Copy, PartialEq, Eq, Structural, Debug)]
pub struct Layers {
    pub guide: bool,
    /// What the channel puts over its own picture: not on the guide, the weather page or the menu.
    pub dress: bool,
    pub number: bool,
    pub banner: bool,
    pub volume: bool,
    pub mute: bool,
    pub help: bool,
    pub menu: bool,
    /// There is something to draw at all.
    pub any: bool,
}

/// The channel has something to put over its picture that the settings allow.
pub open spec fn has_dressing(s: SettingsView, st: ChanStyle) -> bool {
    (s.logos && st.bug > 0) || (s.clocks && st.clock) || (s.ticker && st.ticker)
}

impl TvView {
    pub open spec fn layers(self, st: Station, now: int, w: int, h: int) -> Layers {
        let guide = self.cur == 0;
        let osd_on = (!guide || self.entry.len() > 0) && now < self.osd_until;
        let vol_on = now < self.vol_until && self.audio is Some;
        let muted = self.audio matches Some(a) && a.muted;
        let dress = !guide && st.weather != Some(self.cur) && self.menu is None && self.cur
            < st.styles@.len() && has_dressing(self.settings, st.styles@[self.cur as int]);
        Layers {
            guide,
            dress,
            number: osd_on,
            banner: osd_on && !guide && self.entry.len() == 0,
            volume: !guide && vol_on,
            mute: !guide && !vol_on && muted && now / 1000 % 1000 < 600,
            help: self.help,
            menu: self.menu is Some,
            any: roomy(w, h) && (guide || osd_on || vol_on || muted || self.help || dress
                || self.menu is Some),
        }
    }
}

impl Tv {
    /// What lies over the picture now.
    pub fn layers(&self, st: &Station, now: i64, w: u32, h: u32) -> (r: Layers)
        requires
            0 <= now,
        ensures
            r == self@.layers(*st, now as int, w as int, h as int),
    {
        let guide = self.cur == 0;
        let typed = !self.entry.as_str().is_empty();
        let osd_on = (!guide || typed) && now < self.osd_until;
        let vol_on = now < self.vol_until && self.audio.is_some();
        let muted = match self.audio {
            Some(a) => a.muted,
            None => false,
        };
        let dress = if !guide && !st.is_weather(self.cur) && self.menu.is_none() && self.cur
            < st.styles.len() {
            let y = st.styles[self.cur];
            let s = &self.settings;
            (s.logos && y.bug > 0) || (s.clocks && y.clock) || (s.ticker && y.ticker)
        } else {
            false
        };
        let any = is_roomy(w, h) && (guide || osd_on || vol_on || muted || self.help || dress
            || self.menu.is_some());
        Layers {
            guide,
            dress,
            number: osd_on,
            banner: osd_on && !guide && !typed,
            volume: !guide && vol_on,
            mute: !guide && !vol_on && muted && now / 1000 % 1000 < 600,
            help: self.help,
            menu: self.menu.is_some(),
            any,
        }
    }
}

/// What becomes of the overlay's copy on the graphics card.
#[derive(Clone, Copy, PartialEq, Eq, Structural, Debug)]
pub enum Upload {
    /// It is drawn and uploaded.
    Draw,
    /// It is wiped once, nothing being drawn any more.
    Wipe,
    /// It is left alone.
    Keep,
}

/// The overlay is uploaded only while something is showing; `live` says that something is drawn in
/// the copy on the card, which a new window size makes it again.
pub fn upload(any: bool, live: bool, resized: bool) -> (r: (Upload, bool))
    ensures
        r.0 == (if any {
            Upload::Draw
        } else if live || resized {
            Upload::Wipe
        } else {
            Upload::Keep
        }),
        r.1 == any,
{
    if any {
        (Upload::Draw, true)
    } else if live || resized {
        (Upload::Wipe, false)
    } else {
        (Upload::Keep, false)
    }
}

// ---------------------------------------------------------------- what shows when, and where

/// The picture keeps its shape to the pixel, whatever the overscan: FIT that of the file, 4:3 and
/// 16:9 the one they name, STRETCH that of the window.
pub proof fn the_picture_keeps_its_shape(
    aspect: usize,
    overscan: int,
    fw: int,
    fh: int,
    w: int,
    h: int,
)
    requires
        1 <= w,
        1 <= h,
        1 <= fw,
        1 <= fh,
        2 < picture_size(aspect, overscan, fw, fh, w, h).0 < u32::MAX,
        2 < picture_size(aspect, overscan, fw, fh, w, h).1 < u32::MAX,
    ensures
        ({
            let (dw, dh) = picture_size(aspect, overscan, fw, fh, w, h);
            &&& aspect == 0 ==> dw * fh < (dh + 1) * fw && dh * fw < (dw + 1) * fh
            &&& aspect == 1 ==> dw * 3 < (dh + 1) * 4 && dh * 4 < (dw + 1) * 3
            &&& aspect == 2 ==> dw * 9 < (dh + 1) * 16 && dh * 16 < (dw + 1) * 9
            &&& aspect == 3 ==> dw * h < (dh + 1) * w && dh * w < (dw + 1) * h
        }),
{
    let (num, den) = shape(aspect, fw, fh, w, h);
    let (n, d) = picture_height(num, den, overscan, w, h);
    let (dw, dh) = picture_size(aspect, overscan, fw, fh, w, h);
    let scale = at_least(1_000_000 + overscan, 0);
    assert(n >= 0 && d > 0) by {
        assert(w * den * scale >= 0 && h * scale >= 0 && num * 1_000_000 > 0) by (nonlinear_arith)
            requires
                w >= 1,
                h >= 1,
                den >= 1,
                num >= 1,
                scale >= 0,
        ;
    }
    assert(n >= 2 * d);
    let e = d * den;
    assert(e > 0) by (nonlinear_arith)
        requires
            e == d * den,
            d > 0,
            den >= 1,
    ;
    assert(dw == n * num / e);
    assert(dh == n / d);
    vstd::arithmetic::div_mod::lemma_fundamental_div_mod(n * num, e);
    vstd::arithmetic::div_mod::lemma_mod_bound(n * num, e);
    vstd::arithmetic::div_mod::lemma_fundamental_div_mod(n, d);
    vstd::arithmetic::div_mod::lemma_mod_bound(n, d);
    assert(dw * e <= n * num < (dw + 1) * e) by (nonlinear_arith)
        requires
            n * num == e * dw + (n * num) % e,
            0 <= (n * num) % e < e,
    ;
    assert(dh * d <= n < (dh + 1) * d) by (nonlinear_arith)
        requires
            n == d * dh + n % d,
            0 <= n % d < d,
    ;
    lemma_ratio(dw, dh, n, d, num, den);
}

proof fn lemma_ratio(dw: int, dh: int, n: int, d: int, num: int, den: int)
    requires
        d > 0,
        num >= 1,
        den >= 1,
        dw * (d * den) <= n * num < (dw + 1) * (d * den),
        dh * d <= n < (dh + 1) * d,
    ensures
        dw * den < (dh + 1) * num,
        dh * num < (dw + 1) * den,
{
    assert(n * num < ((dh + 1) * d) * num) by (nonlinear_arith)
        requires
            n < (dh + 1) * d,
            num >= 1,
    ;
    assert((dh * d) * num <= n * num) by (nonlinear_arith)
        requires
            dh * d <= n,
            num >= 1,
    ;
    assert(dw * (d * den) == (dw * den) * d) by (nonlinear_arith);
    assert(((dh + 1) * d) * num == ((dh + 1) * num) * d) by (nonlinear_arith);
    assert((dh * d) * num == (dh * num) * d) by (nonlinear_arith);
    assert((dw + 1) * (d * den) == ((dw + 1) * den) * d) by (nonlinear_arith);
    let (a, b) = (dw * den, (dh + 1) * num);
    assert(a < b) by (nonlinear_arith)
        requires
            a * d < b * d,
            d > 0,
    ;
    let (x, y) = (dh * num, (dw + 1) * den);
    assert(x < y) by (nonlinear_arith)
        requires
            x * d < y * d,
            d > 0,
    ;
}

/// With more overscan no picture is lower; without any it is no higher than the window.
pub proof fn overscan_only_enlarges(
    aspect: usize,
    less: int,
    more: int,
    fw: int,
    fh: int,
    w: int,
    h: int,
)
    requires
        1 <= w,
        1 <= h,
        1 <= fw,
        1 <= fh,
        less <= more,
    ensures
        picture_size(aspect, less, fw, fh, w, h).1 <= picture_size(aspect, more, fw, fh, w, h).1,
{
    let (num, den) = shape(aspect, fw, fh, w, h);
    let (n, d) = picture_height(num, den, less, w, h);
    let (n2, d2) = picture_height(num, den, more, w, h);
    let (s, s2) = (at_least(1_000_000 + less, 0), at_least(1_000_000 + more, 0));
    assert(n <= n2 && d == d2 && d > 0) by {
        assert(w * den * s <= w * den * s2 && h * s <= h * s2 && num * 1_000_000 > 0)
            by (nonlinear_arith)
            requires
                w >= 1,
                h >= 1,
                den >= 1,
                num >= 1,
                0 <= s <= s2,
        ;
    }
    vstd::arithmetic::div_mod::lemma_div_is_ordered(n, n2, d);
    if n2 >= 2 * d {
        vstd::arithmetic::div_mod::lemma_div_is_ordered(2 * d, n2, d);
        vstd::arithmetic::div_mod::lemma_div_multiples_vanish(2, d);
        assert(d * 2 == 2 * d);
    }
}

/// The picture stands in the middle: the margins left and right, and those above and below, differ by
/// a pixel at most; past the window they are as far out on both sides.
pub proof fn the_picture_is_in_the_middle(dw: int, dh: int, w: int, h: int)
    requires
        0 <= dw <= u32::MAX,
        0 <= dh <= u32::MAX,
        0 <= w <= u32::MAX,
        0 <= h <= u32::MAX,
    ensures
        ({
            let p = centred(dw, dh, w, h);
            let (right, below) = (w - p.x - p.w, h - p.y - p.h);
            &&& p.w == dw && p.h == dh
            &&& -1 <= right - p.x <= 1
            &&& -1 <= below - p.y <= 1
        }),
{
}

/// What is tuned is announced: for three seconds the number and, on a channel, the banner show, and
/// then no more. While a number is typed there is no banner.
pub proof fn a_tune_is_announced(t: TvView, st: Station, ch: usize, at: i64, now: int, w: int, h: int)
    requires
        st.wf(),
        t.wf(st.count()),
        crate::tv::moment(at),
        ch < st.count(),
        at <= now,
    ensures
        ({
            let l = t.tuned(st, ch, at).layers(st, now, w, h);
            &&& ch != 0 ==> l.number == (now < at + 3_000_000)
            &&& ch != 0 ==> l.banner == (now < at + 3_000_000 && t.entry.len() == 0)
            &&& ch == 0 ==> !l.banner && l.guide
            &&& ch == 0 && t.entry.len() == 0 ==> !l.number
            &&& ch != 0 ==> !l.guide
        }),
{
    crate::remote::tuning_puts_the_channel_on(t, st, ch, at);
    crate::remote::tuning_leaves_the_rest(t, st, ch, at);
}

/// A change of the volume shows for two and a half seconds, on a channel.
pub proof fn a_volume_change_shows(t: TvView, st: Station, delta: int, at: i64, now: int, w: int, h: int)
    requires
        crate::tv::moment(at),
        t.audio is Some,
        at <= now,
    ensures
        t.cur != 0 ==> t.louder(delta, at).layers(st, now, w, h).volume == (now < at + 2_500_000),
        t.cur == 0 ==> !t.louder(delta, at).layers(st, now, w, h).volume,
        t.cur != 0 ==> t.mute_toggled(at).layers(st, now, w, h).volume == (now < at + 2_500_000),
{
}

/// While the sound is muted, and the bar does not show, the word for it blinks on a channel: in every
/// second it shows for the first 0.6 and not for the rest. Not muted it never shows.
pub proof fn the_word_for_mute_blinks(t: TvView, st: Station, now: int, w: int, h: int)
    requires
        0 <= now,
    ensures
        ({
            let l = t.layers(st, now, w, h);
            &&& (t.audio matches Some(a) && a.muted) && t.cur != 0 && now >= t.vol_until ==> l.mute
                == (now % 1_000_000 < 600_000)
            &&& !(t.audio matches Some(a) && a.muted) || t.cur == 0 || l.volume ==> !l.mute
        }),
{
    assert(now / 1000 % 1000 == (now % 1_000_000) / 1000);
}

/// What a channel puts over its picture shows neither on the guide nor on the weather page nor under
/// the menu, and only what the settings allow: with all of it switched off, nothing does.
pub proof fn the_dressing_gives_way(t: TvView, st: Station, now: int, w: int, h: int)
    ensures
        ({
            let l = t.layers(st, now, w, h);
            &&& t.cur == 0 || st.weather == Some(t.cur) || t.menu is Some ==> !l.dress
            &&& !t.settings.logos && !t.settings.clocks && !t.settings.ticker ==> !l.dress
            &&& l.help == t.help && l.menu == (t.menu is Some) && l.guide == (t.cur == 0)
            &&& l.any ==> w >= 320 && h >= 200
            &&& w >= 320 && h >= 200 && !l.any ==> !l.guide && !l.dress && !l.number && !l.banner
                && !l.volume && !l.mute && !l.help && !l.menu
        }),
{
}

} // verus!
