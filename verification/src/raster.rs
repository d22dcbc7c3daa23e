//! Drawing into the overlay: a window-sized buffer of straight-alpha ARGB pixels, row by row.

use vstd::prelude::*;
use crate::networks::{Logo, LogoView};

verus! {

// ---------------------------------------------------------------- rectangles

/// The pixels from `a` up to `b` filled with `color`.
pub open spec fn fill_run(buf: Seq<u32>, a: int, b: int, color: u32) -> Seq<u32> {
    Seq::new(
        buf.len(),
        |k: int|
            if a <= k < b {
                color
            } else {
                buf[k]
            },
    )
}

/// The rows from `y0` up to `y1` filled with `color` between `x0` and `x1`.
pub open spec fn filled(
    buf: Seq<u32>,
    w: int,
    x0: int,
    y0: int,
    x1: int,
    y1: int,
    color: u32,
) -> Seq<u32>
    decreases y1 - y0,
{
    if y0 >= y1 {
        buf
    } else {
        fill_run(
            filled(buf, w, x0, y0, x1, y1 - 1, color),
            (y1 - 1) * w + x0,
            (y1 - 1) * w + x1,
            color,
        )
    }
}

/// The rectangle lies within a buffer of `len` pixels.
pub open spec fn rect_fits(len: int, w: int, x0: int, y0: int, x1: int, y1: int) -> bool {
    y0 < y1 ==> x0 <= x1 && (y1 - 1) * w + x1 <= len
}

proof fn lemma_row_fits(w: int, x1: int, y: int, y1: int)
    requires
        0 <= w,
        0 <= x1,
        0 <= y < y1,
    ensures
        0 <= y * w,
        y * w + x1 <= (y1 - 1) * w + x1,
{
    assert(0 <= y * w <= (y1 - 1) * w) by (nonlinear_arith)
        requires
            0 <= w,
            0 <= y <= y1 - 1,
    ;
}

proof fn lemma_filled_len(
    buf: Seq<u32>,
    w: int,
    x0: int,
    y0: int,
    x1: int,
    y1: int,
    color: u32,
)
    ensures
        filled(buf, w, x0, y0, x1, y1, color).len() == buf.len(),
    decreases y1 - y0,
{
    if y0 < y1 {
        lemma_filled_len(buf, w, x0, y0, x1, y1 - 1, color);
    }
}

/// Fills a rectangle with one colour.
pub fn fill_rect(buf: &mut Vec<u32>, w: u32, x0: u32, y0: u32, x1: u32, y1: u32, color: u32)
    requires
        rect_fits(old(buf)@.len() as int, w as int, x0 as int, y0 as int, x1 as int, y1 as int),
    ensures
        final(buf)@ == filled(
            old(buf)@,
            w as int,
            x0 as int,
            y0 as int,
            x1 as int,
            y1 as int,
            color,
        ),
        final(buf)@.len() == old(buf)@.len(),
{
    let ghost start = buf@;
    let mut y: u32 = y0;
    let len: usize = buf.len();
    while y < y1
        invariant
            y0 <= y,
            y <= y1 || y == y0,
            len == start.len() == buf@.len(),
            rect_fits(start.len() as int, w as int, x0 as int, y0 as int, x1 as int, y1 as int),
            buf@ == filled(start, w as int, x0 as int, y0 as int, x1 as int, y as int, color),
        decreases y1 - y,
    {
        proof {
            lemma_row_fits(w as int, x1 as int, y as int, y1 as int);
        }
        let row: usize = (y as u64 * w as u64) as usize;
        let a: usize = row + x0 as usize;
        let b: usize = row + x1 as usize;
        let ghost before = buf@;
        let mut k: usize = a;
        while k < b
            invariant
                a <= k <= b <= len,
                buf@.len() == len == before.len(),
                buf@ =~= fill_run(before, a as int, k as int, color),
            decreases b - k,
        {
            buf.set(k, color);
            k += 1;
        }
        y += 1;
    }
}

/// A pixel is filled when its row and its column lie in the rectangle.
pub open spec fn in_rect(w: int, x0: int, y0: int, x1: int, y1: int, k: int) -> bool {
    y0 <= k / w < y1 && x0 <= k % w < x1
}

/// A filled rectangle has its colour in every pixel, and no other pixel changes.
pub proof fn filling_paints_the_rectangle(
    buf: Seq<u32>,
    w: int,
    x0: int,
    y0: int,
    x1: int,
    y1: int,
    color: u32,
    k: int,
)
    requires
        0 < w,
        0 <= x0 <= x1 <= w,
        0 <= y0,
        0 <= k < buf.len(),
    ensures
        filled(buf, w, x0, y0, x1, y1, color).len() == buf.len(),
        filled(buf, w, x0, y0, x1, y1, color)[k] == (if in_rect(w, x0, y0, x1, y1, k) {
            color
        } else {
            buf[k]
        }),
    decreases y1 - y0,
{
    lemma_filled_len(buf, w, x0, y0, x1, y1, color);
    if y0 < y1 {
        filling_paints_the_rectangle(buf, w, x0, y0, x1, y1 - 1, color, k);
        lemma_filled_len(buf, w, x0, y0, x1, y1 - 1, color);
        lemma_run_is_row(w, x0, x1, y1 - 1, k);
    }
}

/// A pixel lies in a run of a row when it is of that row and its column lies in the run.
proof fn lemma_run_is_row(w: int, x0: int, x1: int, y: int, k: int)
    requires
        0 < w,
        0 <= x0 <= x1 <= w,
        0 <= y,
        0 <= k,
    ensures
        (y * w + x0 <= k < y * w + x1) <==> (k / w == y && x0 <= k % w < x1),
{
    vstd::arithmetic::div_mod::lemma_fundamental_div_mod(k, w);
    vstd::arithmetic::div_mod::lemma_mod_bound(k, w);
    assert(w * (k / w) == (k / w) * w) by (nonlinear_arith);
    if y * w + x0 <= k < y * w + x1 {
        vstd::arithmetic::div_mod::lemma_fundamental_div_mod_converse(k, w, y, k - y * w);
    }
}

// ---------------------------------------------------------------- tints

/// The opacity of something at `alpha` laid over something at `a0`.
pub open spec fn over(alpha: u32, a0: u32) -> u32 {
    (alpha + a0 * (255 - alpha) / 255) as u32
}

/// One channel of a colour laid over another: `c` at `alpha` over `d` at `a0`, for the opacity `a`.
/// The opacity is rounded down, so the quotient can pass the brightest value: it is capped there.
pub open spec fn mix(c: u32, d: u32, alpha: u32, a0: u32, a: u32) -> u32 {
    if a == 0 {
        0
    } else {
        let m = (c * alpha + d * a0 * (255 - alpha) / 255) / (a as int);
        if m > 255 {
            255
        } else {
            m as u32
        }
    }
}

/// `color` laid over the pixel `p` at `alpha`: straight-alpha "over".
pub open spec fn tint_pixel(p: u32, color: u32, alpha: u32) -> u32 {
    let a0 = p >> 24;
    let a = over(alpha, a0);
    (a << 24) | (mix((color >> 16) & 255, (p >> 16) & 255, alpha, a0, a) << 16) | (mix(
        (color >> 8) & 255,
        (p >> 8) & 255,
        alpha,
        a0,
        a,
    ) << 8) | mix(color & 255, p & 255, alpha, a0, a)
}

fn mix_channel(c: u32, d: u32, alpha: u32, a0: u32, a: u32) -> (r: u32)
    requires
        c <= 255,
        d <= 255,
        alpha <= 255,
        a0 <= 255,
    ensures
        r == mix(c, d, alpha, a0, a),
{
    if a == 0 {
        return 0;
    }
    assert(c * alpha <= 255 * 255) by (nonlinear_arith)
        requires
            c <= 255,
            alpha <= 255,
    ;
    assert(d * a0 <= 255 * 255) by (nonlinear_arith)
        requires
            d <= 255,
            a0 <= 255,
    ;
    assert(d * a0 * (255 - alpha) <= 255 * 255 * 255) by (nonlinear_arith)
        requires
            0 <= d * a0 <= 255 * 255,
            0 <= 255 - alpha <= 255,
    ;
    assert(0 <= d * a0 * (255 - alpha)) by (nonlinear_arith)
        requires
            0 <= d * a0,
            0 <= 255 - alpha,
    ;
    let num: u32 = c * alpha + d * a0 * (255 - alpha) / 255;
    proof {
        vstd::arithmetic::div_mod::lemma_div_is_ordered_by_denominator(num as int, 1, a as int);
    }
    let m: u32 = num / a;
    if m > 255 {
        255
    } else {
        m
    }
}

fn tint_one(p: u32, color: u32, alpha: u32) -> (r: u32)
    requires
        alpha <= 255,
    ensures
        r == tint_pixel(p, color, alpha),
{
    let a0 = p >> 24;
    assert(p >> 24 <= 255) by (bit_vector);
    assert(forall|x: u32| #[trigger] (x & 255) <= 255) by (bit_vector);
    assert(a0 * (255 - alpha) <= 255 * 255) by (nonlinear_arith)
        requires
            a0 <= 255,
            alpha <= 255,
    ;
    assert(0 <= a0 * (255 - alpha)) by (nonlinear_arith)
        requires
            0 <= a0,
            alpha <= 255,
    ;
    let a: u32 = alpha + a0 * (255 - alpha) / 255;
    let r = mix_channel((color >> 16) & 255, (p >> 16) & 255, alpha, a0, a);
    let g = mix_channel((color >> 8) & 255, (p >> 8) & 255, alpha, a0, a);
    let b = mix_channel(color & 255, p & 255, alpha, a0, a);
    (a << 24) | (r << 16) | (g << 8) | b
}

proof fn lemma_over(alpha: u32, a0: u32)
    requires
        alpha <= 255,
        a0 <= 255,
    ensures
        over(alpha, a0) == alpha + a0 * (255 - alpha) / 255,
        alpha <= over(alpha, a0) <= 255,
{
    assert(0 <= a0 * (255 - alpha) <= 255 * (255 - alpha)) by (nonlinear_arith)
        requires
            0 <= a0 <= 255,
            alpha <= 255,
    ;
}

proof fn lemma_mix(c: u32, d: u32, alpha: u32, a0: u32, a: u32)
    requires
        alpha <= 255,
    ensures
        mix(c, d, alpha, a0, a) <= 255,
{
    if a > 0 {
        assert(0 <= c * alpha) by (nonlinear_arith)
            requires
                0 <= c,
                0 <= alpha,
        ;
        assert(0 <= d * a0 * (255 - alpha)) by (nonlinear_arith)
            requires
                0 <= d,
                0 <= a0,
                alpha <= 255,
        ;
        vstd::arithmetic::div_mod::lemma_div_pos_is_pos(
            c * alpha + d * a0 * (255 - alpha) / 255,
            a as int,
        );
    }
}

/// Four channels of a pixel, each of which fits, are read back as they were put in.
proof fn lemma_channels(a: u32, r: u32, g: u32, b: u32)
    requires
        a <= 255,
        r <= 255,
        g <= 255,
        b <= 255,
    ensures
        ({
            let p = (a << 24) | (r << 16) | (g << 8) | b;
            &&& p >> 24 == a
            &&& (p >> 16) & 255 == r
            &&& (p >> 8) & 255 == g
            &&& p & 255 == b
        }),
{
    assert({
        let p = (a << 24) | (r << 16) | (g << 8) | b;
        &&& p >> 24 == a
        &&& (p >> 16) & 255 == r
        &&& (p >> 8) & 255 == g
        &&& p & 255 == b
    }) by (bit_vector)
        requires
            a <= 255,
            r <= 255,
            g <= 255,
            b <= 255,
    ;
}

/// No channel of a tinted pixel spills into another: each is the capped mix of its own colours,
/// and the opacity is that of the one over the other.
pub proof fn tints_keep_their_channels(p: u32, color: u32, alpha: u32)
    requires
        alpha <= 255,
    ensures
        ({
            let t = tint_pixel(p, color, alpha);
            let a0 = p >> 24;
            let a = over(alpha, a0);
            &&& a == alpha + a0 * (255 - alpha) / 255
            &&& alpha <= a <= 255
            &&& t >> 24 == a
            &&& (t >> 16) & 255 == mix((color >> 16) & 255, (p >> 16) & 255, alpha, a0, a)
            &&& (t >> 8) & 255 == mix((color >> 8) & 255, (p >> 8) & 255, alpha, a0, a)
            &&& t & 255 == mix(color & 255, p & 255, alpha, a0, a)
        }),
{
    let a0 = p >> 24;
    assert(p >> 24 <= 255) by (bit_vector);
    lemma_over(alpha, a0);
    let a = over(alpha, a0);
    lemma_mix((color >> 16) & 255, (p >> 16) & 255, alpha, a0, a);
    lemma_mix((color >> 8) & 255, (p >> 8) & 255, alpha, a0, a);
    lemma_mix(color & 255, p & 255, alpha, a0, a);
    lemma_channels(
        a,
        mix((color >> 16) & 255, (p >> 16) & 255, alpha, a0, a),
        mix((color >> 8) & 255, (p >> 8) & 255, alpha, a0, a),
        mix(color & 255, p & 255, alpha, a0, a),
    );
}

/// The brightest value laid over the brightest is the brightest, at whatever opacities.
pub proof fn white_over_white_is_white(alpha: u32, a0: u32)
    requires
        alpha <= 255,
        a0 <= 255,
        over(alpha, a0) > 0,
    ensures
        mix(255, 255, alpha, a0, over(alpha, a0)) == 255,
{
    lemma_over(alpha, a0);
    let a = over(alpha, a0) as int;
    let x = a0 * (255 - alpha);
    assert(0 <= x) by (nonlinear_arith)
        requires
            x == a0 * (255 - alpha),
            0 <= a0,
            alpha <= 255,
    ;
    assert(255 * a0 * (255 - alpha) == 255 * x) by (nonlinear_arith)
        requires
            x == a0 * (255 - alpha),
    ;
    let num = 255 * alpha + x;
    assert(num >= 255 * a);
    vstd::arithmetic::div_mod::lemma_div_is_ordered(255 * a, num, a);
    vstd::arithmetic::div_mod::lemma_div_by_multiple(255, a);
}

/// The pixels from `a` up to `b` tinted.
pub open spec fn tint_run(buf: Seq<u32>, a: int, b: int, color: u32, alpha: u32) -> Seq<u32> {
    Seq::new(
        buf.len(),
        |k: int|
            if a <= k < b {
                tint_pixel(buf[k], color, alpha)
            } else {
                buf[k]
            },
    )
}

/// The rows from `y0` up to `y1` tinted between `x0` and `x1`.
pub open spec fn tinted(
    buf: Seq<u32>,
    w: int,
    x0: int,
    y0: int,
    x1: int,
    y1: int,
    color: u32,
    alpha: u32,
) -> Seq<u32>
    decreases y1 - y0,
{
    if y0 >= y1 {
        buf
    } else {
        tint_run(
            tinted(buf, w, x0, y0, x1, y1 - 1, color, alpha),
            (y1 - 1) * w + x0,
            (y1 - 1) * w + x1,
            color,
            alpha,
        )
    }
}

/// Blends `color` (0RGB) over the buffer at `alpha` 0..=255: translucent banners.
pub fn tint_rect(
    buf: &mut Vec<u32>,
    w: u32,
    x0: u32,
    y0: u32,
    x1: u32,
    y1: u32,
    color: u32,
    alpha: u32,
)
    requires
        rect_fits(old(buf)@.len() as int, w as int, x0 as int, y0 as int, x1 as int, y1 as int),
        alpha <= 255,
    ensures
        final(buf)@ == tinted(
            old(buf)@,
            w as int,
            x0 as int,
            y0 as int,
            x1 as int,
            y1 as int,
            color,
            alpha,
        ),
        final(buf)@.len() == old(buf)@.len(),
{
    let ghost start = buf@;
    let mut y: u32 = y0;
    let len: usize = buf.len();
    while y < y1
        invariant
            y0 <= y,
            y <= y1 || y == y0,
            alpha <= 255,
            len == start.len() == buf@.len(),
            rect_fits(start.len() as int, w as int, x0 as int, y0 as int, x1 as int, y1 as int),
            buf@ == tinted(
                start,
                w as int,
                x0 as int,
                y0 as int,
                x1 as int,
                y as int,
                color,
                alpha,
            ),
        decreases y1 - y,
    {
        proof {
            lemma_row_fits(w as int, x1 as int, y as int, y1 as int);
        }
        let row: usize = (y as u64 * w as u64) as usize;
        let a: usize = row + x0 as usize;
        let b: usize = row + x1 as usize;
        let ghost before = buf@;
        let mut k: usize = a;
        while k < b
            invariant
                a <= k <= b <= len,
                alpha <= 255,
                buf@.len() == len == before.len(),
                buf@ =~= tint_run(before, a as int, k as int, color, alpha),
            decreases b - k,
        {
            let p = tint_one(buf[k], color, alpha);
            buf.set(k, p);
            k += 1;
        }
        y += 1;
    }
}

/// A tint at full opacity is the colour itself, whatever was below.
pub proof fn a_full_tint_covers(p: u32, color: u32)
    requires
        color <= 0x00ff_ffff,
    ensures
        tint_pixel(p, color, 255) == color | 0xff00_0000,
{
    let a0 = p >> 24;
    assert(a0 * (255 - 255) / 255 == 0);
    let r = (color >> 16) & 255;
    let g = (color >> 8) & 255;
    let b = color & 255;
    assert(forall|x: u32| #[trigger] (x & 255) <= 255) by (bit_vector);
    lemma_full_mix(r, (p >> 16) & 255, a0);
    lemma_full_mix(g, (p >> 8) & 255, a0);
    lemma_full_mix(b, p & 255, a0);
    assert((255u32 << 24) | (r << 16) | (g << 8) | b == color | 0xff00_0000) by (bit_vector)
        requires
            color <= 0x00ff_ffff,
            r == (color >> 16) & 255,
            g == (color >> 8) & 255,
            b == color & 255,
    ;
}

proof fn lemma_full_mix(c: u32, d: u32, a0: u32)
    requires
        c <= 255,
    ensures
        mix(c, d, 255, a0, 255) == c,
{
    assert(d * a0 * (255 - 255) == 0) by (nonlinear_arith);
    assert((c * 255) / 255 == c);
}

// ---------------------------------------------------------------- bevels

pub const BEVEL_LIGHT: u32 = 0xFF_c0_c0_ff;

pub const BEVEL_DARK: u32 = 0xFF_00_00_28;

/// The four bars of a bevel lie within a buffer of `len` pixels.
pub open spec fn bevel_fits(len: int, w: int, x0: int, y0: int, x1: int, y1: int, t: int) -> bool {
    &&& t <= x1
    &&& t <= y1
    &&& y0 + t <= u32::MAX
    &&& x0 + t <= u32::MAX
    &&& rect_fits(len, w, x0, y0, x1, y0 + t)
    &&& rect_fits(len, w, x0, y0, x0 + t, y1)
    &&& rect_fits(len, w, x0, y1 - t, x1, y1)
    &&& rect_fits(len, w, x1 - t, y0, x1, y1)
}

/// A bevel `t` pixels thick: top, left, bottom, right, in this order.
pub open spec fn beveled(
    buf: Seq<u32>,
    w: int,
    x0: int,
    y0: int,
    x1: int,
    y1: int,
    t: int,
    raised: bool,
) -> Seq<u32> {
    let tl = if raised {
        BEVEL_LIGHT
    } else {
        BEVEL_DARK
    };
    let br = if raised {
        BEVEL_DARK
    } else {
        BEVEL_LIGHT
    };
    let b1 = filled(buf, w, x0, y0, x1, y0 + t, tl);
    let b2 = filled(b1, w, x0, y0, x0 + t, y1, tl);
    let b3 = filled(b2, w, x0, y1 - t, x1, y1, br);
    filled(b3, w, x1 - t, y0, x1, y1, br)
}

/// Chunky 3D bevel, `t` pixels thick: light top/left, dark bottom/right (raised) or the reverse.
pub fn bevel(
    buf: &mut Vec<u32>,
    w: u32,
    x0: u32,
    y0: u32,
    x1: u32,
    y1: u32,
    t: u32,
    raised: bool,
)
    requires
        bevel_fits(
            old(buf)@.len() as int,
            w as int,
            x0 as int,
            y0 as int,
            x1 as int,
            y1 as int,
            t as int,
        ),
    ensures
        final(buf)@ == beveled(
            old(buf)@,
            w as int,
            x0 as int,
            y0 as int,
            x1 as int,
            y1 as int,
            t as int,
            raised,
        ),
        final(buf)@.len() == old(buf)@.len(),
{
    let (tl, br) = if raised {
        (BEVEL_LIGHT, BEVEL_DARK)
    } else {
        (BEVEL_DARK, BEVEL_LIGHT)
    };
    fill_rect(buf, w, x0, y0, x1, y0 + t, tl);
    fill_rect(buf, w, x0, y0, x0 + t, y1, tl);
    fill_rect(buf, w, x0, y1 - t, x1, y1, br);
    fill_rect(buf, w, x1 - t, y0, x1, y1, br);
}

// ---------------------------------------------------------------- logos

/// The pixel `d` under a logo pixel of colour `r`, `g`, `b` and opacity `o`, the logo at `alpha`.
pub open spec fn blend_pixel(d: u32, r: u8, g: u8, b: u8, o: u8, alpha: u8) -> u32 {
    let a = (o * alpha / 255) as u32;
    if a == 0 {
        d
    } else {
        let a0 = d >> 24;
        let ao = over(a, a0);
        (ao << 24) | (mix(r as u32, (d >> 16) & 255, a, a0, ao) << 16) | (mix(
            g as u32,
            (d >> 8) & 255,
            a,
            a0,
            ao,
        ) << 8) | mix(b as u32, d & 255, a, a0, ao)
    }
}

fn blend_one(d: u32, r: u8, g: u8, b: u8, o: u8, alpha: u8) -> (p: u32)
    ensures
        p == blend_pixel(d, r, g, b, o, alpha),
{
    assert(0 <= o * alpha <= 255 * 255) by (nonlinear_arith)
        requires
            0 <= o <= 255,
            0 <= alpha <= 255,
    ;
    let a: u32 = o as u32 * alpha as u32 / 255;
    if a == 0 {
        return d;
    }
    let a0 = d >> 24;
    assert(d >> 24 <= 255) by (bit_vector);
    assert(forall|x: u32| #[trigger] (x & 255) <= 255) by (bit_vector);
    assert(0 <= a0 * (255 - a) <= 255 * 255) by (nonlinear_arith)
        requires
            0 <= a0 <= 255,
            0 <= a <= 255,
    ;
    let ao: u32 = a + a0 * (255 - a) / 255;
    let rr = mix_channel(r as u32, (d >> 16) & 255, a, a0, ao);
    let gg = mix_channel(g as u32, (d >> 8) & 255, a, a0, ao);
    let bb = mix_channel(b as u32, d & 255, a, a0, ao);
    (ao << 24) | (rr << 16) | (gg << 8) | bb
}

/// No channel of a pixel under a logo spills into another: each is the capped mix of its own
/// colours, and the opacity is that of the logo's pixel over what was there.
pub proof fn logos_keep_their_channels(d: u32, r: u8, g: u8, b: u8, o: u8, alpha: u8)
    ensures
        ({
            let p = blend_pixel(d, r, g, b, o, alpha);
            let a = (o * alpha / 255) as u32;
            let a0 = d >> 24;
            let ao = over(a, a0);
            &&& a == o * alpha / 255
            &&& a == 0 ==> p == d
            &&& a > 0 ==> {
                &&& ao == a + a0 * (255 - a) / 255
                &&& a <= ao <= 255
                &&& p >> 24 == ao
                &&& (p >> 16) & 255 == mix(r as u32, (d >> 16) & 255, a, a0, ao)
                &&& (p >> 8) & 255 == mix(g as u32, (d >> 8) & 255, a, a0, ao)
                &&& p & 255 == mix(b as u32, d & 255, a, a0, ao)
            }
        }),
{
    assert(0 <= o * alpha <= 255 * 255) by (nonlinear_arith)
        requires
            0 <= o <= 255,
            0 <= alpha <= 255,
    ;
    let a = (o * alpha / 255) as u32;
    let a0 = d >> 24;
    assert(d >> 24 <= 255) by (bit_vector);
    lemma_over(a, a0);
    let ao = over(a, a0);
    lemma_mix(r as u32, (d >> 16) & 255, a, a0, ao);
    lemma_mix(g as u32, (d >> 8) & 255, a, a0, ao);
    lemma_mix(b as u32, d & 255, a, a0, ao);
    lemma_channels(
        ao,
        mix(r as u32, (d >> 16) & 255, a, a0, ao),
        mix(g as u32, (d >> 8) & 255, a, a0, ao),
        mix(b as u32, d & 255, a, a0, ao),
    );
}

/// The pixel in row `dy` and column `dx` of the window once the logo `l` stands at (x, y).
pub open spec fn blit_pixel(
    d: u32,
    dx: int,
    dy: int,
    x: int,
    y: int,
    l: LogoView,
    alpha: u8,
) -> u32 {
    let lx = dx - x;
    let ly = dy - y;
    if 0 <= lx < l.w && 0 <= ly < l.h {
        let i = (ly * l.w + lx) * 4;
        blend_pixel(d, l.rgba[i], l.rgba[i + 1], l.rgba[i + 2], l.rgba[i + 3], alpha)
    } else {
        d
    }
}

/// The window with the logo `l` at (x, y), as far as it is drawn: rows above `rows`, and of that
/// row the columns left of `cols`.
pub open spec fn blitted_to(
    buf: Seq<u32>,
    w: int,
    h: int,
    x: int,
    y: int,
    l: LogoView,
    alpha: u8,
    rows: int,
    cols: int,
) -> Seq<u32> {
    Seq::new(
        buf.len(),
        |k: int|
            if k < w * h && (k / w - y < rows || (k / w - y == rows && k % w - x < cols)) {
                blit_pixel(buf[k], k % w, k / w, x, y, l, alpha)
            } else {
                buf[k]
            },
    )
}

/// The window with the logo `l` at (x, y); what lies outside the window is cut off.
pub open spec fn blitted(
    buf: Seq<u32>,
    w: int,
    h: int,
    x: int,
    y: int,
    l: LogoView,
    alpha: u8,
) -> Seq<u32> {
    Seq::new(
        buf.len(),
        |k: int|
            if k < w * h {
                blit_pixel(buf[k], k % w, k / w, x, y, l, alpha)
            } else {
                buf[k]
            },
    )
}

proof fn lemma_pixel_index(w: int, h: int, dx: int, dy: int)
    requires
        0 <= dx < w,
        0 <= dy < h,
    ensures
        0 <= dy * w + dx < w * h,
        (dy * w + dx) / w == dy,
        (dy * w + dx) % w == dx,
        forall|k: int| 0 <= k && #[trigger] (k / w) == dy && k % w == dx ==> k == dy * w + dx,
{
    assert(0 <= dy * w) by (nonlinear_arith)
        requires
            0 <= dy,
            0 < w,
    ;
    assert((dy + 1) * w <= w * h) by (nonlinear_arith)
        requires
            dy + 1 <= h,
            0 < w,
    ;
    assert((dy + 1) * w == dy * w + w) by (nonlinear_arith);
    vstd::arithmetic::div_mod::lemma_fundamental_div_mod_converse(dy * w + dx, w, dy, dx);
    assert forall|k: int| 0 <= k && #[trigger] (k / w) == dy && k % w == dx implies k == dy * w
        + dx by {
        vstd::arithmetic::div_mod::lemma_fundamental_div_mod(k, w);
        assert(w * (k / w) == (k / w) * w) by (nonlinear_arith);
    }
}

/// Where the bytes of a logo's pixel stand.
proof fn lemma_logo_index(l: LogoView, lx: int, ly: int)
    requires
        l.wf(),
        0 <= lx < l.w,
        0 <= ly < l.h,
    ensures
        0 <= (ly * l.w + lx) * 4,
        (ly * l.w + lx) * 4 + 3 < l.rgba.len(),
{
    let w = l.w as int;
    let h = l.h as int;
    lemma_pixel_index(w, h, lx, ly);
}

/// Composites a logo into the overlay at (x, y), scaled by `alpha`.
pub fn blit_logo(buf: &mut Vec<u32>, w: u32, h: u32, x: i32, y: i32, l: &Logo, alpha: u8)
    requires
        old(buf)@.len() >= w * h,
        l@.wf(),
    ensures
        final(buf)@ == blitted(old(buf)@, w as int, h as int, x as int, y as int, l@, alpha),
        final(buf)@.len() == old(buf)@.len(),
{
    let ghost start = buf@;
    let ghost (wi, hi, xi, yi) = (w as int, h as int, x as int, y as int);
    let len: usize = buf.len();
    let src_len: usize = l.rgba.len();
    let mut ly: u32 = 0;
    proof {
        lemma_blit_begins(start, wi, hi, xi, yi, l@, alpha);
    }
    while ly < l.h
        invariant
            ly <= l.h,
            l@.wf(),
            src_len == l@.rgba.len(),
            wi == w && hi == h && xi == x && yi == y,
            len == buf@.len() == start.len(),
            len >= w * h,
            buf@ == blitted_to(start, wi, hi, xi, yi, l@, alpha, ly as int, 0),
        decreases l.h - ly,
    {
        let dy: i64 = y as i64 + ly as i64;
        if dy < 0 || dy >= h as i64 {
            proof {
                lemma_blit_skips_row(start, wi, hi, xi, yi, l@, alpha, ly as int);
            }
            ly += 1;
            continue;
        }
        let mut lx: u32 = 0;
        while lx < l.w
            invariant
                lx <= l.w,
                ly < l.h,
                l@.wf(),
                src_len == l@.rgba.len(),
                wi == w && hi == h && xi == x && yi == y,
                dy == y + ly,
                0 <= dy < h,
                len == buf@.len() == start.len(),
                len >= w * h,
                buf@ == blitted_to(start, wi, hi, xi, yi, l@, alpha, ly as int, lx as int),
            decreases l.w - lx,
        {
            let dx: i64 = x as i64 + lx as i64;
            if dx >= 0 && dx < w as i64 {
                proof {
                    lemma_pixel_index(wi, hi, dx as int, dy as int);
                    lemma_logo_index(l@, lx as int, ly as int);
                }
                let i: usize = (ly as u64 * l.w as u64 + lx as u64) as usize * 4;
                let at: usize = (dy as u64 * w as u64 + dx as u64) as usize;
                let p = blend_one(
                    buf[at],
                    l.rgba[i],
                    l.rgba[i + 1],
                    l.rgba[i + 2],
                    l.rgba[i + 3],
                    alpha,
                );
                let ghost before = buf@;
                proof {
                    lemma_blit_step(start, wi, hi, xi, yi, l@, alpha, ly as int, lx as int);
                }
                buf.set(at, p);
            } else {
                proof {
                    lemma_blit_skips(start, wi, hi, xi, yi, l@, alpha, ly as int, lx as int);
                }
            }
            lx += 1;
        }
        proof {
            lemma_blit_row_ends(start, wi, hi, xi, yi, l@, alpha, ly as int);
        }
        ly += 1;
    }
    proof {
        lemma_blit_ends(start, wi, hi, xi, yi, l@, alpha);
    }
}

proof fn lemma_blit_begins(
    buf: Seq<u32>,
    w: int,
    h: int,
    x: int,
    y: int,
    l: LogoView,
    alpha: u8,
)
    ensures
        blitted_to(buf, w, h, x, y, l, alpha, 0, 0) == buf,
{
    assert(blitted_to(buf, w, h, x, y, l, alpha, 0, 0) =~= buf);
}

proof fn lemma_blit_skips_row(
    buf: Seq<u32>,
    w: int,
    h: int,
    x: int,
    y: int,
    l: LogoView,
    alpha: u8,
    ly: int,
)
    requires
        0 <= w,
        0 <= h,
        y + ly < 0 || y + ly >= h,
    ensures
        blitted_to(buf, w, h, x, y, l, alpha, ly + 1, 0) == blitted_to(
            buf,
            w,
            h,
            x,
            y,
            l,
            alpha,
            ly,
            0,
        ),
{
    let a = blitted_to(buf, w, h, x, y, l, alpha, ly, 0);
    let b = blitted_to(buf, w, h, x, y, l, alpha, ly + 1, 0);
    assert forall|k: int| 0 <= k < buf.len() implies a[k] == b[k] by {
        if k < w * h {
            lemma_pixel_place(w, h, k);
        }
    }
    assert(a =~= b);
}

/// The row and the column of a pixel lie in the window.
proof fn lemma_pixel_place(w: int, h: int, k: int)
    requires
        0 <= w,
        0 <= h,
        0 <= k < w * h,
    ensures
        0 < w,
        0 <= k / w < h,
        0 <= k % w < w,
        k == (k / w) * w + k % w,
{
    if w == 0 {
        assert(w * h == 0) by (nonlinear_arith)
            requires
                w == 0,
        ;
    }
    vstd::arithmetic::div_mod::lemma_fundamental_div_mod(k, w);
    vstd::arithmetic::div_mod::lemma_mod_bound(k, w);
    vstd::arithmetic::div_mod::lemma_div_pos_is_pos(k, w);
    assert(w * (k / w) == (k / w) * w) by (nonlinear_arith);
    if k / w >= h {
        assert((k / w) * w >= h * w) by (nonlinear_arith)
            requires
                k / w >= h,
                w > 0,
        ;
        assert(h * w == w * h) by (nonlinear_arith);
    }
}

proof fn lemma_blit_skips(
    buf: Seq<u32>,
    w: int,
    h: int,
    x: int,
    y: int,
    l: LogoView,
    alpha: u8,
    ly: int,
    lx: int,
)
    requires
        0 <= w,
        0 <= h,
        x + lx < 0 || x + lx >= w,
    ensures
        blitted_to(buf, w, h, x, y, l, alpha, ly, lx + 1) == blitted_to(
            buf,
            w,
            h,
            x,
            y,
            l,
            alpha,
            ly,
            lx,
        ),
{
    let a = blitted_to(buf, w, h, x, y, l, alpha, ly, lx);
    let b = blitted_to(buf, w, h, x, y, l, alpha, ly, lx + 1);
    assert forall|k: int| 0 <= k < buf.len() implies a[k] == b[k] by {
        if k < w * h {
            lemma_pixel_place(w, h, k);
        }
    }
    assert(a =~= b);
}

proof fn lemma_blit_step(
    buf: Seq<u32>,
    w: int,
    h: int,
    x: int,
    y: int,
    l: LogoView,
    alpha: u8,
    ly: int,
    lx: int,
)
    requires
        0 <= w,
        0 <= h,
        buf.len() >= w * h,
        0 <= x + lx < w,
        0 <= y + ly < h,
    ensures
        ({
            let at = (y + ly) * w + (x + lx);
            let a = blitted_to(buf, w, h, x, y, l, alpha, ly, lx);
            &&& 0 <= at < buf.len()
            &&& a[at] == buf[at]
            &&& blitted_to(buf, w, h, x, y, l, alpha, ly, lx + 1) == a.update(
                at,
                blit_pixel(buf[at], x + lx, y + ly, x, y, l, alpha),
            )
        }),
{
    let at = (y + ly) * w + (x + lx);
    lemma_pixel_index(w, h, x + lx, y + ly);
    let a = blitted_to(buf, w, h, x, y, l, alpha, ly, lx);
    let b = blitted_to(buf, w, h, x, y, l, alpha, ly, lx + 1);
    let c = a.update(at, blit_pixel(buf[at], x + lx, y + ly, x, y, l, alpha));
    assert forall|k: int| 0 <= k < buf.len() implies b[k] == c[k] by {
        if k < w * h {
            lemma_pixel_place(w, h, k);
        }
    }
    assert(b =~= c);
}

proof fn lemma_blit_row_ends(
    buf: Seq<u32>,
    w: int,
    h: int,
    x: int,
    y: int,
    l: LogoView,
    alpha: u8,
    ly: int,
)
    ensures
        blitted_to(buf, w, h, x, y, l, alpha, ly + 1, 0) == blitted_to(
            buf,
            w,
            h,
            x,
            y,
            l,
            alpha,
            ly,
            l.w as int,
        ),
{
    assert(blitted_to(buf, w, h, x, y, l, alpha, ly + 1, 0) =~= blitted_to(
        buf,
        w,
        h,
        x,
        y,
        l,
        alpha,
        ly,
        l.w as int,
    ));
}

proof fn lemma_blit_ends(
    buf: Seq<u32>,
    w: int,
    h: int,
    x: int,
    y: int,
    l: LogoView,
    alpha: u8,
)
    ensures
        blitted_to(buf, w, h, x, y, l, alpha, l.h as int, 0) == blitted(
            buf,
            w,
            h,
            x,
            y,
            l,
            alpha,
        ),
{
    assert(blitted_to(buf, w, h, x, y, l, alpha, l.h as int, 0) =~= blitted(
        buf,
        w,
        h,
        x,
        y,
        l,
        alpha,
    ));
}

// ---------------------------------------------------------------- scaling

/// Byte `c` of the pixel in row `sy` and column `sx`.
pub open spec fn logo_byte(l: LogoView, sx: int, sy: int, c: int) -> int {
    l.rgba[(sy * l.w + sx) * 4 + c] as int
}

/// What a pixel adds to channel `c`: a colour weighs as much as the pixel is opaque, so that
/// transparent pixels don't bleed colour into edges.
pub open spec fn weight(l: LogoView, sx: int, sy: int, c: int) -> int {
    if c == 3 {
        logo_byte(l, sx, sy, 3)
    } else {
        logo_byte(l, sx, sy, c) * logo_byte(l, sx, sy, 3)
    }
}

/// The sum of channel `c` over row `sy`, columns `sx0` up to `sx1`.
pub open spec fn row_sum(l: LogoView, sx0: int, sx1: int, sy: int, c: int) -> int
    decreases sx1 - sx0,
{
    if sx0 >= sx1 {
        0
    } else {
        row_sum(l, sx0, sx1 - 1, sy, c) + weight(l, sx1 - 1, sy, c)
    }
}

/// The sum of channel `c` over rows `sy0` up to `sy1`, columns `sx0` up to `sx1`.
pub open spec fn box_sum(l: LogoView, sx0: int, sx1: int, sy0: int, sy1: int, c: int) -> int
    decreases sy1 - sy0,
{
    if sy0 >= sy1 {
        0
    } else {
        box_sum(l, sx0, sx1, sy0, sy1 - 1, c) + row_sum(l, sx0, sx1, sy1 - 1, c)
    }
}

/// Where the source pixels of target pixel `i` of `n` begin, of `len` in all.
pub open spec fn box_from(i: int, n: int, len: int) -> int {
    i * len / n
}

/// Where the source pixels of target pixel `i` of `n` end: one at least, and none past `len`.
pub open spec fn box_to(i: int, n: int, len: int) -> int {
    let end = (i + 1) * len / n;
    let one = box_from(i, n, len) + 1;
    let e = if end < one {
        one
    } else {
        end
    };
    if e > len {
        len
    } else {
        e
    }
}

/// Byte `c` of target pixel (x, y) of a `tw` by `th` picture: the weighted average of its box.
pub open spec fn scaled_byte(l: LogoView, tw: int, th: int, x: int, y: int, c: int) -> u8 {
    let sx0 = box_from(x, tw, l.w as int);
    let sx1 = box_to(x, tw, l.w as int);
    let sy0 = box_from(y, th, l.h as int);
    let sy1 = box_to(y, th, l.h as int);
    let opacity = box_sum(l, sx0, sx1, sy0, sy1, 3);
    if c == 3 {
        let n = (sx1 - sx0) * (sy1 - sy0);
        (if n <= 0 {
            0
        } else {
            opacity / n
        }) as u8
    } else if opacity > 0 {
        (box_sum(l, sx0, sx1, sy0, sy1, c) / opacity) as u8
    } else {
        0
    }
}

/// The picture scaled to `tw` by `th`, neither of them 0.
pub open spec fn scaled(l: LogoView, tw: int, th: int) -> LogoView {
    LogoView {
        w: tw as u32,
        h: th as u32,
        rgba: Seq::new(
            (tw * th * 4) as nat,
            |k: int| scaled_byte(l, tw, th, k / 4 % tw, k / 4 / tw, k % 4),
        ),
    }
}

pub open spec fn at_least_one(n: u32) -> u32 {
    if n == 0 {
        1
    } else {
        n
    }
}

/// What the sums of a box can come to.
proof fn lemma_row_sum_bound(l: LogoView, sx0: int, sx1: int, sy: int, c: int)
    requires
        sx0 <= sx1,
        0 <= c <= 3,
    ensures
        0 <= row_sum(l, sx0, sx1, sy, c) <= (sx1 - sx0) * 65025,
    decreases sx1 - sx0,
{
    if sx0 < sx1 {
        lemma_row_sum_bound(l, sx0, sx1 - 1, sy, c);
        let a = logo_byte(l, sx1 - 1, sy, c);
        let b = logo_byte(l, sx1 - 1, sy, 3);
        assert(0 <= a * b <= 255 * 255) by (nonlinear_arith)
            requires
                0 <= a <= 255,
                0 <= b <= 255,
        ;
    }
}

/// One target pixel.
fn scale_pixel(l: &Logo, sx0: u32, sx1: u32, sy0: u32, sy1: u32) -> (r: (u8, u8, u8, u8))
    requires
        l@.wf(),
        sx0 <= sx1 <= l.w,
        sy0 <= sy1 <= l.h,
    ensures
        ({
            let (ax, bx, ay, by) = (sx0 as int, sx1 as int, sy0 as int, sy1 as int);
            let opacity = box_sum(l@, ax, bx, ay, by, 3);
            let n = (bx - ax) * (by - ay);
            &&& r.3 == (if n <= 0 {
                0
            } else {
                opacity / n
            }) as u8
            &&& opacity <= 0 ==> r.0 == 0 && r.1 == 0 && r.2 == 0
            &&& opacity > 0 ==> r.0 == (box_sum(l@, ax, bx, ay, by, 0) / opacity) as u8
            &&& opacity > 0 ==> r.1 == (box_sum(l@, ax, bx, ay, by, 1) / opacity) as u8
            &&& opacity > 0 ==> r.2 == (box_sum(l@, ax, bx, ay, by, 2) / opacity) as u8
        }),
{
    let ghost v = l@;
    let ghost (ax, bx, ay) = (sx0 as int, sx1 as int, sy0 as int);
    let src_len: usize = l.rgba.len();
    let wide: u64 = (sx1 - sx0) as u64;
    let mut acc0: u128 = 0;
    let mut acc1: u128 = 0;
    let mut acc2: u128 = 0;
    let mut acc3: u128 = 0;
    let mut sy: u32 = sy0;
    while sy < sy1
        invariant
            sy0 <= sy <= sy1 <= l.h,
            sx0 <= sx1 <= l.w,
            v == l@,
            v.wf(),
            src_len == v.rgba.len(),
            ax == sx0 && bx == sx1 && ay == sy0,
            acc0 == box_sum(v, ax, bx, ay, sy as int, 0),
            acc1 == box_sum(v, ax, bx, ay, sy as int, 1),
            acc2 == box_sum(v, ax, bx, ay, sy as int, 2),
            acc3 == box_sum(v, ax, bx, ay, sy as int, 3),
            acc0 <= (sy - sy0) * 0x1_0000_0000_0000,
            acc1 <= (sy - sy0) * 0x1_0000_0000_0000,
            acc2 <= (sy - sy0) * 0x1_0000_0000_0000,
            acc3 <= (sy - sy0) * 0x1_0000_0000_0000,
        decreases sy1 - sy,
    {
        let ghost (b0, b1, b2, b3) = (acc0, acc1, acc2, acc3);
        let mut sx: u32 = sx0;
        while sx < sx1
            invariant
                sx0 <= sx <= sx1 <= l.w,
                sy < l.h,
                sy0 <= sy,
                v == l@,
                v.wf(),
                src_len == v.rgba.len(),
                ax == sx0,
                b0 <= (sy - sy0) * 0x1_0000_0000_0000,
                b1 <= (sy - sy0) * 0x1_0000_0000_0000,
                b2 <= (sy - sy0) * 0x1_0000_0000_0000,
                b3 <= (sy - sy0) * 0x1_0000_0000_0000,
                acc0 == b0 + row_sum(v, ax, sx as int, sy as int, 0),
                acc1 == b1 + row_sum(v, ax, sx as int, sy as int, 1),
                acc2 == b2 + row_sum(v, ax, sx as int, sy as int, 2),
                acc3 == b3 + row_sum(v, ax, sx as int, sy as int, 3),
            decreases sx1 - sx,
        {
            proof {
                lemma_logo_index(v, sx as int, sy as int);
                lemma_row_sum_bound(v, ax, sx as int, sy as int, 0);
                lemma_row_sum_bound(v, ax, sx as int, sy as int, 1);
                lemma_row_sum_bound(v, ax, sx as int, sy as int, 2);
                lemma_row_sum_bound(v, ax, sx as int, sy as int, 3);
            }
            let i: usize = (sy as u64 * l.w as u64 + sx as u64) as usize * 4;
            let a = l.rgba[i + 3] as u128;
            let (p0, p1, p2) = (l.rgba[i] as u128, l.rgba[i + 1] as u128, l.rgba[i + 2] as u128);
            assert(0 <= p0 * a <= 255 * 255) by (nonlinear_arith)
                requires
                    0 <= p0 <= 255,
                    0 <= a <= 255,
            ;
            assert(0 <= p1 * a <= 255 * 255) by (nonlinear_arith)
                requires
                    0 <= p1 <= 255,
                    0 <= a <= 255,
            ;
            assert(0 <= p2 * a <= 255 * 255) by (nonlinear_arith)
                requires
                    0 <= p2 <= 255,
                    0 <= a <= 255,
            ;
            acc0 = acc0 + p0 * a;
            acc1 = acc1 + p1 * a;
            acc2 = acc2 + p2 * a;
            acc3 = acc3 + a;
            sx += 1;
        }
        proof {
            lemma_row_sum_bound(v, ax, bx, sy as int, 0);
            lemma_row_sum_bound(v, ax, bx, sy as int, 1);
            lemma_row_sum_bound(v, ax, bx, sy as int, 2);
            lemma_row_sum_bound(v, ax, bx, sy as int, 3);
        }
        sy += 1;
    }
    let ghost by = sy1 as int;
    proof {
        assert(0 <= (bx - ax) * (by - ay) <= 0xffff_ffff * 0xffff_ffff) by (nonlinear_arith)
            requires
                0 <= bx - ax <= 0xffff_ffff,
                0 <= by - ay <= 0xffff_ffff,
        ;
    }
    let n: u128 = (wide * (sy1 - sy0) as u64) as u128;
    let o: u8 = if n == 0 { 0 } else { (acc3 / n) as u8 };
    if acc3 > 0 {
        ((acc0 / acc3) as u8, (acc1 / acc3) as u8, (acc2 / acc3) as u8, o)
    } else {
        (0, 0, 0, o)
    }
}

/// The source pixels of a target pixel lie in the source.
proof fn lemma_box(i: int, n: int, len: int)
    requires
        0 <= i < n,
        0 <= len,
    ensures
        0 <= box_from(i, n, len) <= box_to(i, n, len) <= len,
        0 <= i * len,
        0 <= (i + 1) * len,
        (i + 1) * len / n <= len,
        len > 0 ==> box_from(i, n, len) < box_to(i, n, len),
{
    assert(0 <= i * len && 0 <= (i + 1) * len && (i + 1) * len <= n * len && i * len <= (n - 1)
        * len) by (nonlinear_arith)
        requires
            0 <= i < n,
            0 <= len,
    ;
    vstd::arithmetic::div_mod::lemma_div_pos_is_pos(i * len, n);
    vstd::arithmetic::div_mod::lemma_div_is_ordered((i + 1) * len, n * len, n);
    vstd::arithmetic::div_mod::lemma_div_multiples_vanish(len, n);
    assert(n * len == len * n) by (nonlinear_arith);
    if len > 0 {
        assert(i * len < n * len) by (nonlinear_arith)
            requires
                i < n,
                len > 0,
        ;
        vstd::arithmetic::div_mod::lemma_fundamental_div_mod(i * len, n);
        vstd::arithmetic::div_mod::lemma_mod_bound(i * len, n);
        if box_from(i, n, len) >= len {
            let q = i * len / n;
            assert(n * q >= n * len) by (nonlinear_arith)
                requires
                    q >= len,
                    n > 0,
            ;
        }
    } else {
        assert(i * len == 0) by (nonlinear_arith)
            requires
                len == 0,
        ;
        vstd::arithmetic::div_mod::lemma_div_basics(n);
    }
}

fn box_range(i: u32, n: u32, len: u32) -> (r: (u32, u32))
    requires
        i < n,
    ensures
        r.0 == box_from(i as int, n as int, len as int),
        r.1 == box_to(i as int, n as int, len as int),
        r.0 <= r.1 <= len,
{
    proof {
        lemma_box(i as int, n as int, len as int);
        assert((i + 1) * len <= 0x1_0000_0000 * 0xffff_ffff) by (nonlinear_arith)
            requires
                0 <= i + 1 <= 0x1_0000_0000,
                0 <= len <= 0xffff_ffff,
        ;
        assert(i * len <= (i + 1) * len) by (nonlinear_arith)
            requires
                0 <= len,
        ;
    }
    let from: u32 = (i as u64 * len as u64 / n as u64) as u32;
    let end: u32 = ((i as u64 + 1) * len as u64 / n as u64) as u32;
    let one: u64 = from as u64 + 1;
    let e: u64 = if (end as u64) < one { one } else { end as u64 };
    let to: u32 = if e > len as u64 { len } else { e as u32 };
    (from, to)
}

/// Box-filter downscale (logos are small; upscaling is nearest).
pub fn scale_logo(l: &Logo, tw: u32, th: u32) -> (r: Logo)
    requires
        l@.wf(),
        at_least_one(tw) * at_least_one(th) * 4 <= u32::MAX,
    ensures
        r@ == scaled(l@, at_least_one(tw) as int, at_least_one(th) as int),
        r@.wf(),
{
    let tw: u32 = if tw == 0 { 1 } else { tw };
    let th: u32 = if th == 0 { 1 } else { th };
    let mut out: Vec<u8> = Vec::new();
    let ghost (w, h) = (tw as int, th as int);
    let ghost want = scaled(l@, w, h).rgba;
    let mut y: u32 = 0;
    assert(want.take(0) =~= Seq::empty());
    assert(0 * w == 0);
    while y < th
        invariant
            y <= th,
            tw > 0,
            w == tw && h == th,
            l@.wf(),
            want == scaled(l@, w, h).rgba,
            out@ == want.take(y * w * 4),
        decreases th - y,
    {
        let (sy0, sy1) = box_range(y, th, l.h);
        let mut x: u32 = 0;
        proof {
            lemma_pixel_index(w, h, 0, y as int);
        }
        while x < tw
            invariant
                x <= tw,
                y < th,
                w == tw && h == th,
                l@.wf(),
                want == scaled(l@, w, h).rgba,
                sy0 == box_from(y as int, h, l@.h as int),
                sy1 == box_to(y as int, h, l@.h as int),
                sy0 <= sy1 <= l.h,
                out@ == want.take((y * w + x) * 4),
            decreases tw - x,
        {
            let (sx0, sx1) = box_range(x, tw, l.w);
            let (p0, p1, p2, p3) = scale_pixel(l, sx0, sx1, sy0, sy1);
            let ghost j = y * w + x;
            proof {
                lemma_pixel_index(w, h, x as int, y as int);
                assert((j * 4) / 4 == j && (j * 4) % 4 == 0);
                assert((j * 4 + 1) / 4 == j && (j * 4 + 1) % 4 == 1);
                assert((j * 4 + 2) / 4 == j && (j * 4 + 2) % 4 == 2);
                assert((j * 4 + 3) / 4 == j && (j * 4 + 3) % 4 == 3);
                assert(want.len() == w * h * 4);
                assert(want[j * 4] == p0);
                assert(want[j * 4 + 1] == p1);
                assert(want[j * 4 + 2] == p2);
                assert(want[j * 4 + 3] == p3);
            }
            out.push(p0);
            out.push(p1);
            out.push(p2);
            out.push(p3);
            proof {
                assert(out@ =~= want.take((j + 1) * 4));
                assert((y * w + (x + 1)) * 4 == (j + 1) * 4);
            }
            x += 1;
        }
        proof {
            assert((y + 1) * w == y * w + w) by (nonlinear_arith);
        }
        y += 1;
    }
    proof {
        assert(w * h >= 0) by (nonlinear_arith)
            requires
                w >= 0,
                h >= 0,
        ;
        assert(h * w == w * h) by (nonlinear_arith);
        assert(want.take(h * w * 4) =~= want);
    }
    Logo { w: tw, h: th, rgba: out }
}

proof fn lemma_row_of_one_colour(l: LogoView, sx0: int, sx1: int, sy: int, c: int, v: int)
    requires
        0 <= c < 3,
        forall|sx: int|
            sx0 <= sx < sx1 ==> #[trigger] logo_byte(l, sx, sy, 3) == 0 || logo_byte(l, sx, sy, c)
                == v,
    ensures
        row_sum(l, sx0, sx1, sy, c) == v * row_sum(l, sx0, sx1, sy, 3),
    decreases sx1 - sx0,
{
    if sx0 < sx1 {
        lemma_row_of_one_colour(l, sx0, sx1 - 1, sy, c, v);
        let a = logo_byte(l, sx1 - 1, sy, 3);
        let p = logo_byte(l, sx1 - 1, sy, c);
        let s = row_sum(l, sx0, sx1 - 1, sy, 3);
        assert(p * a == v * a) by (nonlinear_arith)
            requires
                a == 0 || p == v,
        ;
        assert(v * (s + a) == v * s + v * a) by (nonlinear_arith);
    } else {
        assert(v * 0 == 0);
    }
}

proof fn lemma_box_of_one_colour(
    l: LogoView,
    sx0: int,
    sx1: int,
    sy0: int,
    sy1: int,
    c: int,
    v: int,
)
    requires
        0 <= c < 3,
        forall|sx: int, sy: int|
            sx0 <= sx < sx1 && sy0 <= sy < sy1 ==> #[trigger] logo_byte(l, sx, sy, 3) == 0
                || logo_byte(l, sx, sy, c) == v,
    ensures
        box_sum(l, sx0, sx1, sy0, sy1, c) == v * box_sum(l, sx0, sx1, sy0, sy1, 3),
    decreases sy1 - sy0,
{
    if sy0 < sy1 {
        lemma_box_of_one_colour(l, sx0, sx1, sy0, sy1 - 1, c, v);
        lemma_row_of_one_colour(l, sx0, sx1, sy1 - 1, c, v);
        let s = box_sum(l, sx0, sx1, sy0, sy1 - 1, 3);
        let t = row_sum(l, sx0, sx1, sy1 - 1, 3);
        assert(v * (s + t) == v * s + v * t) by (nonlinear_arith);
    } else {
        assert(v * 0 == 0);
    }
}

/// Transparent pixels don't bleed colour into edges: where all that is visible of a box has one
/// value, the scaled pixel has it too.
pub proof fn scaling_keeps_a_plain_colour(
    l: LogoView,
    tw: int,
    th: int,
    x: int,
    y: int,
    c: int,
    v: u8,
)
    requires
        0 <= c < 3,
        forall|sx: int, sy: int|
            box_from(x, tw, l.w as int) <= sx < box_to(x, tw, l.w as int) && box_from(
                y,
                th,
                l.h as int,
            ) <= sy < box_to(y, th, l.h as int) ==> #[trigger] logo_byte(l, sx, sy, 3) == 0
                || logo_byte(l, sx, sy, c) == v,
        scaled_byte(l, tw, th, x, y, 3) > 0,
    ensures
        scaled_byte(l, tw, th, x, y, c) == v,
{
    let sx0 = box_from(x, tw, l.w as int);
    let sx1 = box_to(x, tw, l.w as int);
    let sy0 = box_from(y, th, l.h as int);
    let sy1 = box_to(y, th, l.h as int);
    lemma_box_of_one_colour(l, sx0, sx1, sy0, sy1, c, v as int);
    let s = box_sum(l, sx0, sx1, sy0, sy1, 3);
    lemma_box_sum_not_negative(l, sx0, sx1, sy0, sy1);
    if s == 0 {
        let n = (sx1 - sx0) * (sy1 - sy0);
        if n > 0 {
            vstd::arithmetic::div_mod::lemma_div_basics(n);
            assert(0int / n == 0);
        }
        assert(scaled_byte(l, tw, th, x, y, 3) == 0);
    }
    vstd::arithmetic::div_mod::lemma_div_multiples_vanish(v as int, s);
    assert(s * v == v * s) by (nonlinear_arith);
}

/// A target pixel of an enlarged picture has one source pixel.
proof fn lemma_box_of_one(i: int, n: int, len: int)
    requires
        0 <= i < n,
        1 <= len <= n,
    ensures
        box_to(i, n, len) == box_from(i, n, len) + 1,
        0 <= box_from(i, n, len) < len,
{
    lemma_box(i, n, len);
    let q = i * len / n;
    vstd::arithmetic::div_mod::lemma_fundamental_div_mod(i * len, n);
    vstd::arithmetic::div_mod::lemma_mod_bound(i * len, n);
    vstd::arithmetic::div_mod::lemma_fundamental_div_mod((i + 1) * len, n);
    vstd::arithmetic::div_mod::lemma_mod_bound((i + 1) * len, n);
    let e = (i + 1) * len / n;
    assert((i + 1) * len == i * len + len) by (nonlinear_arith);
    assert(n * (q + 2) == n * q + 2 * n) by (nonlinear_arith);
    if e >= q + 2 {
        assert(n * e >= n * (q + 2)) by (nonlinear_arith)
            requires
                e >= q + 2,
                n > 0,
        ;
    }
}

/// Upscaling is nearest: every pixel of an enlarged picture is one of the source, where that one
/// can be seen at all.
pub proof fn upscaling_is_nearest(l: LogoView, tw: int, th: int, x: int, y: int)
    requires
        l.wf(),
        1 <= l.w <= tw,
        1 <= l.h <= th,
        0 <= x < tw,
        0 <= y < th,
    ensures
        ({
            let (sx, sy) = (x * l.w / tw, y * l.h / th);
            &&& scaled_byte(l, tw, th, x, y, 3) == logo_byte(l, sx, sy, 3)
            &&& logo_byte(l, sx, sy, 3) > 0 ==> forall|c: int|
                0 <= c < 3 ==> #[trigger] scaled_byte(l, tw, th, x, y, c) == logo_byte(
                    l,
                    sx,
                    sy,
                    c,
                )
        }),
{
    lemma_box_of_one(x, tw, l.w as int);
    lemma_box_of_one(y, th, l.h as int);
    let (sx, sy) = (x * l.w / tw, y * l.h / th);
    assert forall|c: int| 0 <= c <= 3 implies #[trigger] box_sum(l, sx, sx + 1, sy, sy + 1, c)
        == weight(l, sx, sy, c) by {
        reveal_with_fuel(box_sum, 2);
        reveal_with_fuel(row_sum, 2);
    }
    let a = logo_byte(l, sx, sy, 3);
    assert(box_sum(l, sx, sx + 1, sy, sy + 1, 3) == a);
    assert((sx + 1 - sx) * (sy + 1 - sy) == 1) by (nonlinear_arith);
    assert(a / 1 == a);
    if a > 0 {
        assert forall|c: int| 0 <= c < 3 implies #[trigger] scaled_byte(l, tw, th, x, y, c)
            == logo_byte(l, sx, sy, c) by {
            let p = logo_byte(l, sx, sy, c);
            assert(box_sum(l, sx, sx + 1, sy, sy + 1, c) == p * a);
            vstd::arithmetic::div_mod::lemma_div_multiples_vanish(p, a);
            assert(a * p == p * a) by (nonlinear_arith);
        }
    }
}

proof fn lemma_box_sum_not_negative(l: LogoView, sx0: int, sx1: int, sy0: int, sy1: int)
    ensures
        box_sum(l, sx0, sx1, sy0, sy1, 3) >= 0,
    decreases sy1 - sy0,
{
    if sy0 < sy1 {
        lemma_box_sum_not_negative(l, sx0, sx1, sy0, sy1 - 1);
        if sx0 <= sx1 {
            lemma_row_sum_bound(l, sx0, sx1, sy1 - 1, 3);
        }
    }
}

// ---------------------------------------------------------------- text

/// A rasterized character, with the pen position at which it stands.
pub struct Glyph {
    pub pen: i32,
    pub xmin: i32,
    pub ymin: i32,
    pub width: u32,
    pub height: u32,
    /// One byte of coverage per pixel, row by row from the top.
    pub bitmap: Vec<u8>,
}

impl Glyph {
    pub open spec fn wf(self) -> bool {
        self.bitmap@.len() == self.width * self.height
    }

    /// The column of the bitmap's left edge.
    pub open spec fn left(self) -> int {
        self.pen + self.xmin
    }

    /// The row of the bitmap's upper edge.
    pub open spec fn top(self, baseline: int) -> int {
        baseline - (self.ymin + self.height)
    }

    /// Whether the character covers the pixel (gx, gy) of its bitmap: a hard threshold makes crisp
    /// aliased text.
    pub open spec fn covers(self, gx: int, gy: int) -> bool {
        0 <= gx < self.width && 0 <= gy < self.height && self.bitmap@[gy * self.width + gx] >= 128
    }
}

/// The pixels of a window in which text is drawn: those of the rows from `top` up to `bottom`.
pub struct Clip {
    pub top: i32,
    pub bottom: i32,
}

/// Row `y` of a window of height `h` is drawn.
pub open spec fn in_clip(clip: Clip, h: int, y: int) -> bool {
    clip.top <= y < clip.bottom && y < h
}

/// The window with a character stamped in `color`, its bitmap's upper left corner at (x, y), as
/// far as it is drawn: rows above `rows`, and of that row the columns left of `cols`.
pub open spec fn stamped_to(
    buf: Seq<u32>,
    w: int,
    h: int,
    g: Glyph,
    x: int,
    y: int,
    color: u32,
    clip: Clip,
    rows: int,
    cols: int,
) -> Seq<u32> {
    Seq::new(
        buf.len(),
        |k: int|
            if k < w * h && in_clip(clip, h, k / w) && g.covers(k % w - x, k / w - y) && (k / w - y
                < rows || (k / w - y == rows && k % w - x < cols)) {
                color | 0xFF00_0000
            } else {
                buf[k]
            },
    )
}

/// The window with a character stamped in `color`, its bitmap's upper left corner at (x, y).
pub open spec fn stamped(
    buf: Seq<u32>,
    w: int,
    h: int,
    g: Glyph,
    x: int,
    y: int,
    color: u32,
    clip: Clip,
) -> Seq<u32> {
    Seq::new(
        buf.len(),
        |k: int|
            if k < w * h && in_clip(clip, h, k / w) && g.covers(k % w - x, k / w - y) {
                color | 0xFF00_0000
            } else {
                buf[k]
            },
    )
}

proof fn lemma_stamp_step(
    buf: Seq<u32>,
    w: int,
    h: int,
    g: Glyph,
    x: int,
    y: int,
    color: u32,
    clip: Clip,
    gy: int,
    gx: int,
)
    requires
        0 <= w,
        0 <= h,
        0 <= clip.top,
        buf.len() >= w * h,
    ensures
        ({
            let at = (y + gy) * w + (x + gx);
            let a = stamped_to(buf, w, h, g, x, y, color, clip, gy, gx);
            let b = stamped_to(buf, w, h, g, x, y, color, clip, gy, gx + 1);
            if in_clip(clip, h, y + gy) && 0 <= x + gx < w && g.covers(gx, gy) {
                0 <= at < w * h && b == a.update(at, color | 0xFF00_0000)
            } else {
                b == a
            }
        }),
{
    let at = (y + gy) * w + (x + gx);
    let a = stamped_to(buf, w, h, g, x, y, color, clip, gy, gx);
    let b = stamped_to(buf, w, h, g, x, y, color, clip, gy, gx + 1);
    let hit = in_clip(clip, h, y + gy) && 0 <= x + gx < w && g.covers(gx, gy);
    if hit {
        lemma_pixel_index(w, h, x + gx, y + gy);
    }
    let c = if hit {
        a.update(at, color | 0xFF00_0000)
    } else {
        a
    };
    assert forall|k: int| 0 <= k < buf.len() implies b[k] == c[k] by {
        if k < w * h {
            lemma_pixel_place(w, h, k);
        }
    }
    assert(b =~= c);
}

fn stamp(
    buf: &mut Vec<u32>,
    w: u32,
    h: u32,
    g: &Glyph,
    x: i64,
    y: i64,
    color: u32,
    clip: &Clip,
)
    requires
        old(buf)@.len() >= w * h,
        g.wf(),
        0 <= clip.top,
        -0x4_0000_0000 <= x <= 0x4_0000_0000,
        -0x4_0000_0000 <= y <= 0x4_0000_0000,
    ensures
        final(buf)@ == stamped(
            old(buf)@,
            w as int,
            h as int,
            *g,
            x as int,
            y as int,
            color,
            *clip,
        ),
        final(buf)@.len() == old(buf)@.len(),
{
    let ghost start = buf@;
    let ghost (wi, hi, xi, yi) = (w as int, h as int, x as int, y as int);
    let len: usize = buf.len();
    let bits: usize = g.bitmap.len();
    let mut gy: u32 = 0;
    assert(stamped_to(start, wi, hi, *g, xi, yi, color, *clip, 0, 0) =~= start);
    while gy < g.height
        invariant
            gy <= g.height,
            g.wf(),
            0 <= clip.top,
            bits == g.bitmap@.len(),
            wi == w && hi == h && xi == x && yi == y,
            -0x4_0000_0000 <= x <= 0x4_0000_0000,
            -0x4_0000_0000 <= y <= 0x4_0000_0000,
            len == buf@.len() == start.len(),
            len >= w * h,
            buf@ == stamped_to(start, wi, hi, *g, xi, yi, color, *clip, gy as int, 0),
        decreases g.height - gy,
    {
        let dy: i64 = y + gy as i64;
        let mut gx: u32 = 0;
        while gx < g.width
            invariant
                gx <= g.width,
                gy < g.height,
                g.wf(),
                0 <= clip.top,
                bits == g.bitmap@.len(),
                wi == w && hi == h && xi == x && yi == y,
                -0x4_0000_0000 <= x <= 0x4_0000_0000,
                dy == y + gy,
                len == buf@.len() == start.len(),
                len >= w * h,
                buf@ == stamped_to(
                    start,
                    wi,
                    hi,
                    *g,
                    xi,
                    yi,
                    color,
                    *clip,
                    gy as int,
                    gx as int,
                ),
            decreases g.width - gx,
        {
            proof {
                lemma_stamp_step(start, wi, hi, *g, xi, yi, color, *clip, gy as int, gx as int);
                lemma_pixel_index(g.width as int, g.height as int, gx as int, gy as int);
            }
            let dx: i64 = x + gx as i64;
            if dy >= clip.top as i64 && dy < clip.bottom as i64 && dy < h as i64 && dx >= 0 && dx
                < w as i64 && g.bitmap[(gy as u64 * g.width as u64 + gx as u64) as usize] >= 128 {
                let at: usize = (dy as u64 * w as u64 + dx as u64) as usize;
                buf.set(at, color | 0xFF00_0000);
            }
            gx += 1;
        }
        assert(stamped_to(start, wi, hi, *g, xi, yi, color, *clip, gy as int, g.width as int)
            =~= stamped_to(start, wi, hi, *g, xi, yi, color, *clip, gy + 1, 0));
        gy += 1;
    }
    assert(stamped_to(start, wi, hi, *g, xi, yi, color, *clip, g.height as int, 0) =~= stamped(
        start,
        wi,
        hi,
        *g,
        xi,
        yi,
        color,
        *clip,
    ));
}

/// How far the drop shadow of text `px` pixels high is set off.
pub open spec fn shadow_of(px: int) -> int {
    if px / 14 < 2 {
        2
    } else {
        px / 14
    }
}

/// The window with the first `n` characters drawn: of each its black shadow, then itself.
pub open spec fn text_drawn(
    buf: Seq<u32>,
    w: int,
    h: int,
    glyphs: Seq<Glyph>,
    px: int,
    baseline: int,
    color: u32,
    clip: Clip,
    n: int,
) -> Seq<u32>
    decreases n,
{
    if n <= 0 {
        buf
    } else {
        let before = text_drawn(buf, w, h, glyphs, px, baseline, color, clip, n - 1);
        let g = glyphs[n - 1];
        let s = shadow_of(px);
        let shaded = stamped(before, w, h, g, g.left() + s, g.top(baseline) + s, 0, clip);
        stamped(shaded, w, h, g, g.left(), g.top(baseline), color, clip)
    }
}

/// Draws placed characters on a baseline. Rows outside the clip are not drawn. Always with a black
/// drop shadow.
pub fn draw_text(
    buf: &mut Vec<u32>,
    w: u32,
    h: u32,
    glyphs: &Vec<Glyph>,
    px: u32,
    baseline: i32,
    color: u32,
    clip: &Clip,
)
    requires
        old(buf)@.len() >= w * h,
        forall|i: int| 0 <= i < glyphs@.len() ==> (#[trigger] glyphs@[i]).wf(),
        0 <= clip.top,
    ensures
        final(buf)@ == text_drawn(
            old(buf)@,
            w as int,
            h as int,
            glyphs@,
            px as int,
            baseline as int,
            color,
            *clip,
            glyphs@.len() as int,
        ),
        final(buf)@.len() == old(buf)@.len(),
{
    let ghost start = buf@;
    let s: i64 = if px / 14 < 2 { 2 } else { (px / 14) as i64 };
    let mut i: usize = 0;
    while i < glyphs.len()
        invariant
            i <= glyphs@.len(),
            s == shadow_of(px as int),
            buf@.len() == start.len(),
            start.len() >= w * h,
            forall|j: int| 0 <= j < glyphs@.len() ==> (#[trigger] glyphs@[j]).wf(),
            0 <= clip.top,
            buf@ == text_drawn(
                start,
                w as int,
                h as int,
                glyphs@,
                px as int,
                baseline as int,
                color,
                *clip,
                i as int,
            ),
        decreases glyphs@.len() - i,
    {
        let g = &glyphs[i];
        let x: i64 = g.pen as i64 + g.xmin as i64;
        let y: i64 = baseline as i64 - (g.ymin as i64 + g.height as i64);
        stamp(buf, w, h, g, x + s, y + s, 0, clip);
        stamp(buf, w, h, g, x, y, color, clip);
        i += 1;
    }
}

/// Text leaves the rows outside its clip as they were.
pub proof fn text_keeps_to_its_clip(
    buf: Seq<u32>,
    w: int,
    h: int,
    glyphs: Seq<Glyph>,
    px: int,
    baseline: int,
    color: u32,
    clip: Clip,
    n: int,
    k: int,
)
    requires
        0 <= k < buf.len(),
        !in_clip(clip, h, k / w),
    ensures
        text_drawn(buf, w, h, glyphs, px, baseline, color, clip, n).len() == buf.len(),
        text_drawn(buf, w, h, glyphs, px, baseline, color, clip, n)[k] == buf[k],
    decreases n,
{
    if n > 0 {
        text_keeps_to_its_clip(buf, w, h, glyphs, px, baseline, color, clip, n - 1, k);
    }
}

// ---------------------------------------------------------------- what is seen

/// A tint changes the pixels of its rectangle, each by itself, and no other.
pub proof fn tinting_tints_the_rectangle(
    buf: Seq<u32>,
    w: int,
    x0: int,
    y0: int,
    x1: int,
    y1: int,
    color: u32,
    alpha: u32,
    k: int,
)
    requires
        0 < w,
        0 <= x0 <= x1 <= w,
        0 <= y0,
        0 <= k < buf.len(),
    ensures
        tinted(buf, w, x0, y0, x1, y1, color, alpha).len() == buf.len(),
        !in_rect(w, x0, y0, x1, y1, k) ==> tinted(buf, w, x0, y0, x1, y1, color, alpha)[k] == buf[k],
        in_rect(w, x0, y0, x1, y1, k) ==> tinted(buf, w, x0, y0, x1, y1, color, alpha)[k]
            == tint_pixel(buf[k], color, alpha),
    decreases y1 - y0,
{
    if y0 < y1 {
        tinting_tints_the_rectangle(buf, w, x0, y0, x1, y1 - 1, color, alpha, k);
        lemma_run_is_row(w, x0, x1, y1 - 1, k);
    }
}

/// Over what cannot be seen through a tint lies between the two colours, in each channel, and the
/// more there is of it the nearer it is to its own: at no opacity what was there stays, at full
/// opacity the tint has covered it.
pub proof fn a_tint_lies_between(c: u32, d: u32, less: u32, more: u32)
    requires
        c <= 255,
        d <= 255,
        less <= more <= 255,
    ensures
        over(more, 255) == 255,
        c <= d ==> c <= mix(c, d, more, 255, 255) <= mix(c, d, less, 255, 255) <= d,
        d <= c ==> d <= mix(c, d, less, 255, 255) <= mix(c, d, more, 255, 255) <= c,
        mix(c, d, 0, 255, 255) == d,
        mix(c, d, 255, 255, 255) == c,
{
    lemma_mixed(c, d, less);
    lemma_mixed(c, d, more);
    lemma_mixed(c, d, 0);
    lemma_mixed(c, d, 255);
    assert(255 * (255 - more) / 255 == 255 - more);
    let (x, y) = (c * less + d * (255 - less), c * more + d * (255 - more));
    if c <= d {
        assert(255 * c <= y <= x <= 255 * d) by (nonlinear_arith)
            requires
                x == c * less + d * (255 - less),
                y == c * more + d * (255 - more),
                0 <= c <= d,
                0 <= less <= more <= 255,
        ;
    }
    if d <= c {
        assert(255 * d <= x <= y <= 255 * c) by (nonlinear_arith)
            requires
                x == c * less + d * (255 - less),
                y == c * more + d * (255 - more),
                0 <= d <= c,
                0 <= less <= more <= 255,
        ;
    }
    assert(c * 0 + d * (255 - 0) == 255 * d);
    assert(c * 255 + d * (255 - 255) == 255 * c);
}

proof fn lemma_mixed(c: u32, d: u32, alpha: u32)
    requires
        c <= 255,
        d <= 255,
        alpha <= 255,
    ensures
        mix(c, d, alpha, 255, 255) == (c * alpha + d * (255 - alpha)) / 255,
{
    assert(d * 255 * (255 - alpha) == 255 * (d * (255 - alpha))) by (nonlinear_arith);
    assert(255 * (d * (255 - alpha)) / 255 == d * (255 - alpha));
    assert(0 <= c * alpha + d * (255 - alpha) <= 255 * 255) by (nonlinear_arith)
        requires
            0 <= c <= 255,
            0 <= d <= 255,
            0 <= alpha <= 255,
    ;
}

/// What no tint is laid over stays: at no opacity the channels of anything that can be seen are what
/// they were.
pub proof fn no_tint_leaves_what_is_there(c: u32, d: u32, a0: u32)
    requires
        d <= 255,
        0 < a0 <= 255,
    ensures
        over(0, a0) == a0,
        mix(c, d, 0, a0, over(0, a0)) == d,
{
    assert(a0 * (255 - 0) / 255 == a0);
    assert(c * 0 == 0) by (nonlinear_arith);
    let x = d * a0;
    assert(d * a0 * (255 - 0) / 255 == x);
    assert(x == a0 * d) by (nonlinear_arith)
        requires
            x == d * a0,
    ;
    vstd::arithmetic::div_mod::lemma_div_multiples_vanish(d as int, a0 as int);
}

/// A raised bevel is light at its upper and left edges and dark at its lower and right ones; a sunken
/// one is the other way round. What it frames, and what is outside, stays.
pub proof fn a_bevel_is_lit_from_the_upper_left(
    buf: Seq<u32>,
    w: int,
    x0: int,
    y0: int,
    x1: int,
    y1: int,
    t: int,
    raised: bool,
    k: int,
)
    requires
        0 < w,
        0 <= x0 <= x1 <= w,
        0 <= y0,
        0 <= t <= x1 - x0,
        t <= y1 - y0,
        0 <= k < buf.len(),
    ensures
        ({
            let p = beveled(buf, w, x0, y0, x1, y1, t, raised)[k];
            let (x, y) = (k % w, k / w);
            let (light, dark) = (0xFF_c0_c0_ffu32, 0xFF_00_00_28u32);
            let inside = x0 <= x < x1 && y0 <= y < y1;
            let far = y >= y1 - t || x >= x1 - t;
            let near = y < y0 + t || x < x0 + t;
            &&& !inside ==> p == buf[k]
            &&& inside && !far && !near ==> p == buf[k]
            &&& inside && far ==> p == (if raised {
                dark
            } else {
                light
            })
            &&& inside && near && !far ==> p == (if raised {
                light
            } else {
                dark
            })
        }),
{
    let tl = if raised {
        BEVEL_LIGHT
    } else {
        BEVEL_DARK
    };
    let br = if raised {
        BEVEL_DARK
    } else {
        BEVEL_LIGHT
    };
    let b1 = filled(buf, w, x0, y0, x1, y0 + t, tl);
    filling_paints_the_rectangle(buf, w, x0, y0, x1, y0 + t, tl, k);
    let b2 = filled(b1, w, x0, y0, x0 + t, y1, tl);
    filling_paints_the_rectangle(b1, w, x0, y0, x0 + t, y1, tl, k);
    let b3 = filled(b2, w, x0, y1 - t, x1, y1, br);
    filling_paints_the_rectangle(b2, w, x0, y1 - t, x1, y1, br, k);
    filling_paints_the_rectangle(b3, w, x1 - t, y0, x1, y1, br, k);
}

/// A logo's pixel that cannot be seen through is seen in its own colours, where the logo stands with
/// nothing of its strength taken; one that is fully transparent, or a logo without strength, leaves
/// what is there, and so does a logo all over the window where it does not stand.
pub proof fn a_logo_is_seen_where_it_stands(
    buf: Seq<u32>,
    w: int,
    h: int,
    x: int,
    y: int,
    l: LogoView,
    alpha: u8,
    lx: int,
    ly: int,
)
    requires
        0 <= x + lx < w,
        0 <= y + ly < h,
        buf.len() >= w * h,
    ensures
        ({
            let k = (y + ly) * w + (x + lx);
            let i = (ly * l.w + lx) * 4;
            let p = blitted(buf, w, h, x, y, l, alpha)[k];
            let on = 0 <= lx < l.w && 0 <= ly < l.h;
            &&& !on ==> p == buf[k]
            &&& on && (l.rgba[i + 3] == 0 || alpha == 0) ==> p == buf[k]
            &&& on && l.rgba[i + 3] == 255 && alpha == 255 ==> {
                &&& (p >> 16) & 255 == l.rgba[i]
                &&& (p >> 8) & 255 == l.rgba[i + 1]
                &&& p & 255 == l.rgba[i + 2]
                &&& p >> 24 == 255
            }
        }),
{
    lemma_pixel_index(w, h, x + lx, y + ly);
    let k = (y + ly) * w + (x + lx);
    let i = (ly * l.w + lx) * 4;
    if 0 <= lx < l.w && 0 <= ly < l.h {
        let (d, o) = (buf[k], l.rgba[i + 3]);
        logos_keep_their_channels(d, l.rgba[i], l.rgba[i + 1], l.rgba[i + 2], o, alpha);
        if o == 0 || alpha == 0 {
            assert(o * alpha == 0) by (nonlinear_arith)
                requires
                    o == 0 || alpha == 0,
            ;
        }
        if o == 255 && alpha == 255 {
            let a0 = d >> 24;
            assert(255 * 255 / 255 == 255int);
            assert(a0 * (255 - 255) == 0) by (nonlinear_arith);
            lemma_full_mix(l.rgba[i] as u32, (d >> 16) & 255, a0);
            lemma_full_mix(l.rgba[i + 1] as u32, (d >> 8) & 255, a0);
            lemma_full_mix(l.rgba[i + 2] as u32, d & 255, a0);
        }
    }
}

/// The last character of a text is seen whole, in the colour of the text: each pixel that it covers,
/// counted from the left edge of its bitmap and from the upper one, which is as far above the
/// baseline as the bitmap reaches. Where nothing but its shadow falls, as far to the right as down,
/// it is black; all else is as it was before.
pub proof fn a_character_stands_on_the_baseline(
    buf: Seq<u32>,
    w: int,
    h: int,
    glyphs: Seq<Glyph>,
    px: int,
    baseline: int,
    color: u32,
    clip: Clip,
    n: int,
    x: int,
    y: int,
)
    requires
        0 < n <= glyphs.len(),
        0 <= x < w,
        0 <= y < h,
        clip.top <= y < clip.bottom,
        buf.len() >= w * h,
    ensures
        ({
            let k = y * w + x;
            let g = glyphs[n - 1];
            let before = text_drawn(buf, w, h, glyphs, px, baseline, color, clip, n - 1);
            let p = text_drawn(buf, w, h, glyphs, px, baseline, color, clip, n)[k];
            let (gx, gy) = (x - (g.pen + g.xmin), y - (baseline - g.ymin - g.height));
            let s = shadow_of(px);
            &&& g.covers(gx, gy) ==> p == color | 0xFF00_0000
            &&& !g.covers(gx, gy) && g.covers(gx - s, gy - s) ==> p == 0xFF00_0000
            &&& !g.covers(gx, gy) && !g.covers(gx - s, gy - s) ==> p == before[k]
            &&& s >= 2 && s * 14 <= (if px < 28 {
                28
            } else {
                px
            })
        }),
{
    lemma_pixel_index(w, h, x, y);
    lemma_drawn_len(buf, w, h, glyphs, px, baseline, color, clip, n);
    lemma_drawn_len(buf, w, h, glyphs, px, baseline, color, clip, n - 1);
    let g = glyphs[n - 1];
    let s = shadow_of(px);
    assert(0u32 | 0xFF00_0000 == 0xFF00_0000u32) by (bit_vector);
    assert(x - (g.left() + s) == x - (g.pen + g.xmin) - s);
    assert(y - (g.top(baseline) + s) == y - (baseline - g.ymin - g.height) - s);
}

proof fn lemma_drawn_len(
    buf: Seq<u32>,
    w: int,
    h: int,
    glyphs: Seq<Glyph>,
    px: int,
    baseline: int,
    color: u32,
    clip: Clip,
    n: int,
)
    ensures
        text_drawn(buf, w, h, glyphs, px, baseline, color, clip, n).len() == buf.len(),
    decreases n,
{
    if n > 0 {
        lemma_drawn_len(buf, w, h, glyphs, px, baseline, color, clip, n - 1);
    }
}

} // verus!
