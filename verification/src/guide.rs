//! The guide (channel 0).

use vstd::prelude::*;
use crate::draw::{
    all_within, ink, op_views, opaque, put, rect, drawable, unclipped, Ink, Op, OpView, Rect,
    GUIDE_BLUE, GUIDE_BLUE2, GUIDE_DARK, GUIDE_GRAY, GUIDE_HILITE, GUIDE_WHITE, GUIDE_YELLOW,
};
use crate::library::{begins_with, cut, cutting_keeps_the_beginning, first_chars};
use crate::num::{part, part_of, wrap};
use crate::screens::{head_cut, headed, left_line, left_text, time_left};
use crate::station::ChanInfo;
use crate::text::{decimal_padded, push_padded, to_uppercase, uppercase};

verus! {

// ---------------------------------------------------------------- crawling text

/// A length in thousandths of a pixel, in whole pixels toward zero.
pub open spec fn whole(x: int) -> int {
    if x >= 0 {
        x / 1000
    } else {
        -((-x) / 1000)
    }
}

fn whole_pixels(x: i64) -> (r: i32)
    requires
        -0x1_0000_0000_000 <= x <= 0x1_0000_0000_000,
    ensures
        r == whole(x as int) as i32,
{
    if x >= 0 {
        (x / 1000) as i32
    } else {
        (-((-x) / 1000)) as i32
    }
}

/// Copies of a text side by side from `sx` to the right edge of the window; those that end left of
/// `from` are left out. `sx` and the text's width `tw` are thousandths of a pixel.
pub open spec fn crawl(
    out: Seq<OpView>,
    text: Seq<char>,
    i: Ink,
    sx: int,
    tw: int,
    from: int,
    w: int,
) -> Seq<OpView>
    decreases
            if sx < w * 1000 {
                w * 1000 - sx
            } else {
                0
            },
{
    if sx >= w * 1000 || tw <= 0 {
        out
    } else {
        let next = if sx + tw > from {
            out.push(OpView::Text(text, Ink { x: whole(sx) as i32, ..i }))
        } else {
            out
        };
        crawl(next, text, i, sx + tw, tw, from, w)
    }
}

pub(crate) fn draw_crawl(out: &mut Vec<Op>, text: &str, i: Ink, sx: i64, tw: i64, from: i64, w: u32)
    requires
        0 < tw <= 0xff_ffff_ffff,
        -0xff_ffff_ffff <= sx <= 0xff_ffff_ffff,
        w <= 0x3fff_ffff,
    ensures
        op_views(final(out)@) == crawl(
            op_views(old(out)@),
            text@,
            i,
            sx as int,
            tw as int,
            from as int,
            w as int,
        ),
{
    let ghost start = op_views(out@);
    let end: i64 = w as i64 * 1000;
    let mut x: i64 = sx;
    while x < end
        invariant
            end == w * 1000,
            w <= 0x3fff_ffff,
            0 < tw <= 0xff_ffff_ffff,
            -0xff_ffff_ffff <= x <= 0x1ff_ffff_ffff,
            crawl(op_views(out@), text@, i, x as int, tw as int, from as int, w as int) == crawl(
                start,
                text@,
                i,
                sx as int,
                tw as int,
                from as int,
                w as int,
            ),
        decreases
            if x < end {
                end - x
            } else {
                0
            },
    {
        if x + tw > from {
            let t = text.to_owned();
            put(out, Op::Text(t, Ink { x: whole_pixels(x), ..i }));
        }
        x = x + tw;
    }
}

/// How far a crawl of width `tw` has come after `t` microseconds, at `speed` thousandths of the
/// window's width a second.
pub open spec fn crawl_shift(t: int, w: int, speed: int, tw: int) -> int {
    (t * w * speed / 1_000_000) % tw
}

pub(crate) fn shift_of(t: i64, w: u32, speed: u32, tw: i64) -> (r: i64)
    requires
        0 <= t,
        0 < tw,
        speed <= 1000,
    ensures
        r == crawl_shift(t as int, w as int, speed as int, tw as int),
        0 <= r < tw,
{
    proof {
        assert(0 <= t * w <= 0x7fff_ffff_ffff_ffff * 0xffff_ffff) by (nonlinear_arith)
            requires
                0 <= t <= 0x7fff_ffff_ffff_ffff,
                0 <= w <= 0xffff_ffff,
        ;
        assert(0 <= t * w * speed <= 0x7fff_ffff_ffff_ffff * 0xffff_ffff * 1000) by (nonlinear_arith)
            requires
                0 <= t * w <= 0x7fff_ffff_ffff_ffff * 0xffff_ffff,
                0 <= speed <= 1000,
        ;
        vstd::arithmetic::div_mod::lemma_mod_bound(
            t * w * speed / 1_000_000,
            tw as int,
        );
    }
    (t as u128 * w as u128 * speed as u128 / 1_000_000 % tw as u128) as i64
}

// ---------------------------------------------------------------- the guide's frame

/// The ad box of the guide.
pub open spec fn ad_box(w: int, h: int) -> Rect {
    rect(part_of(w, 550), part_of(h, 40), part_of(w, 970), part_of(h, 470))
}

/// The ad box of the guide.
pub fn guide_ad(w: u32, h: u32) -> (r: Rect)
    ensures
        r == ad_box(w as int, h as int),
{
    Rect { x0: part(w, 550), y0: part(h, 40), x1: part(w, 970), y1: part(h, 470) }
}

pub open spec fn guide_frame(w: int, h: int) -> Seq<OpView> {
    let b = ad_box(w, h);
    Seq::<OpView>::empty().push(OpView::Clear(opaque(GUIDE_BLUE))).push(OpView::Fill(b, 0)).push(
        OpView::Bevel(rect(b.x0 - 3, b.y0 - 3, b.x1 + 3, b.y1 + 3), 3, false),
    )
}

/// The guide's background, with a hole for the ad box: it shows video.
pub fn draw_guide_frame(w: u32, h: u32) -> (r: Vec<Op>)
    requires
        drawable(w as int, h as int),
    ensures
        op_views(r@) == guide_frame(w as int, h as int),
{
    let mut out: Vec<Op> = Vec::new();
    assert(op_views(out@) =~= Seq::empty());
    let b = guide_ad(w, h);
    put(&mut out, Op::Clear(GUIDE_BLUE | 0xFF00_0000));
    put(&mut out, Op::Fill(b, 0));
    put(
        &mut out,
        Op::Bevel(
            Rect { x0: b.x0 - 3, y0: b.y0 - 3, x1: b.x1 + 3, y1: b.y1 + 3 },
            3,
            false,
        ),
    );
    out
}

// ---------------------------------------------------------------- the guide's panel

/// Guide state snapshot handed to the drawing code.
pub struct GuideView {
    pub preview: usize,
    pub sel: usize,
    pub top: i64,
    /// Microseconds since the top row last advanced.
    pub since_step: i64,
    pub auto: bool,
    pub music: String,
    /// Microseconds since the start, for the ticker.
    pub now: i64,
}

/// "PREVIEW  CH 07  HBO"
pub open spec fn panel_head(auto: bool, preview: int, net: Seq<char>) -> Seq<char> {
    (if auto {
        "PREVIEW"@
    } else {
        "SELECTED"@
    }) + "  CH "@ + decimal_padded(preview as nat, 2) + "  "@ + first_chars(net, 14)
}

fn panel_heading(auto: bool, preview: usize, net: &str) -> (r: String)
    ensures
        r@ == panel_head(auto, preview as int, net@),
{
    let mut s = if auto { "PREVIEW".to_owned() } else { "SELECTED".to_owned() };
    s.append("  CH ");
    push_padded(&mut s, preview as u64, 2);
    s.append("  ");
    let t = cut(net, 14);
    s.append(t.as_str());
    s
}

/// The panel left of the ad box: what it is showing, the date and the clock.
pub open spec fn guide_panel(
    out: Seq<OpView>,
    auto: bool,
    preview: int,
    i: ChanInfo,
    date: Seq<char>,
    clock: Seq<char>,
    w: int,
    h: int,
) -> Seq<OpView> {
    let px = part_of(h, 50);
    let small = px * 4 / 5;
    let x = part_of(w, 30);
    let lines = out.push(
        OpView::Text(
            panel_head(auto, preview, i.net@),
            ink(px, x, part_of(h, 120), GUIDE_YELLOW, false),
        ),
    ).push(
        OpView::Text(first_chars(i.now@, 26), ink(px, x, part_of(h, 200), GUIDE_WHITE, false)),
    ).push(
        OpView::Text(
            headed("NEXT  "@, i.next@, 26),
            ink(small, x, part_of(h, 270), GUIDE_GRAY, false),
        ),
    );
    let timed = if i.left > 0 {
        lines.push(
            OpView::Text(
                left_text(i.left as int),
                ink(small, x, part_of(h, 330), GUIDE_GRAY, false),
            ),
        )
    } else {
        lines
    };
    timed.push(OpView::Text(date, ink(small, x, part_of(h, 395), GUIDE_GRAY, false))).push(
        OpView::Text(clock, ink(px * 1400 / 1000, x, part_of(h, 475), GUIDE_WHITE, false)),
    )
}

fn draw_panel(
    out: &mut Vec<Op>,
    auto: bool,
    preview: usize,
    i: &ChanInfo,
    date: String,
    clock: String,
    w: u32,
    h: u32,
)
    requires
        drawable(w as int, h as int),
    ensures
        op_views(final(out)@) == guide_panel(
            op_views(old(out)@),
            auto,
            preview as int,
            *i,
            date@,
            clock@,
            w as int,
            h as int,
        ),
{
    let px = part(h, 50);
    let small = px * 4 / 5;
    let x = part(w, 30) as i32;
    put(
        out,
        Op::Text(
            panel_heading(auto, preview, i.net.as_str()),
            unclipped(px, x, part(h, 120) as i32, GUIDE_YELLOW, false),
        ),
    );
    put(
        out,
        Op::Text(
            cut(i.now.as_str(), 26),
            unclipped(px, x, part(h, 200) as i32, GUIDE_WHITE, false),
        ),
    );
    put(
        out,
        Op::Text(
            head_cut("NEXT  ", i.next.as_str(), 26),
            unclipped(small, x, part(h, 270) as i32, GUIDE_GRAY, false),
        ),
    );
    if i.left > 0 {
        put(
            out,
            Op::Text(
                left_line(i.left),
                unclipped(small, x, part(h, 330) as i32, GUIDE_GRAY, false),
            ),
        );
    }
    put(out, Op::Text(date, unclipped(small, x, part(h, 395) as i32, GUIDE_GRAY, false)));
    let big: u32 = (px as u64 * 1400 / 1000) as u32;
    put(out, Op::Text(clock, unclipped(big, x, part(h, 475) as i32, GUIDE_WHITE, false)));
}

pub open spec fn guide_header(out: Seq<OpView>, w: int, h: int) -> Seq<OpView> {
    let (y0, y1) = (part_of(h, 500), part_of(h, 560));
    let px = part_of(h, 45);
    let b = part_of(h, 550);
    out.push(OpView::Fill(rect(0, y0, w, y1), opaque(GUIDE_DARK))).push(
        OpView::Bevel(rect(0, y0, w, y1), 2, true),
    ).push(OpView::Text("CH"@, ink(px, part_of(w, 30), b, GUIDE_YELLOW, false))).push(
        OpView::Text("NOW"@, ink(px, part_of(w, 245), b, GUIDE_WHITE, false)),
    ).push(OpView::Text("NEXT"@, ink(px, part_of(w, 625), b, GUIDE_GRAY, false)))
}

fn draw_header(out: &mut Vec<Op>, w: u32, h: u32)
    requires
        drawable(w as int, h as int),
    ensures
        op_views(final(out)@) == guide_header(op_views(old(out)@), w as int, h as int),
{
    let r = Rect { x0: 0, y0: part(h, 500), x1: w, y1: part(h, 560) };
    put(out, Op::Fill(r, GUIDE_DARK | 0xFF00_0000));
    put(out, Op::Bevel(r, 2, true));
    let px = part(h, 45);
    let b = part(h, 550) as i32;
    put(
        out,
        Op::Text("CH".to_owned(), unclipped(px, part(w, 30) as i32, b, GUIDE_YELLOW, false)),
    );
    put(
        out,
        Op::Text("NOW".to_owned(), unclipped(px, part(w, 245) as i32, b, GUIDE_WHITE, false)),
    );
    put(
        out,
        Op::Text("NEXT".to_owned(), unclipped(px, part(w, 625) as i32, b, GUIDE_GRAY, false)),
    );
}

// ---------------------------------------------------------------- the guide's grid

/// How far the grid has eased up by one row, in millionths: it holds 1.5 s after each step, then
/// eases up over 0.5 s (auto mode only).
pub open spec fn ease(auto: bool, since: int) -> int {
    if !auto || since < 1_500_000 {
        0
    } else {
        let t = (since - 1_500_000) * 2;
        let u = if t > 1_000_000 {
            1_000_000
        } else {
            t
        };
        u * u * (3_000_000 - 2 * u) / 1_000_000_000_000
    }
}

proof fn lemma_ease(u: int)
    requires
        0 <= u <= 1_000_000,
    ensures
        0 <= u * u * (3_000_000 - 2 * u) <= 1_000_000_000_000 * 1_000_000,
{
    let v = 1_000_000 - u;
    assert(u * u * (3_000_000 - 2 * u) == u * u * 1_000_000 + 2 * (u * u * v)) by (nonlinear_arith)
        requires
            v == 1_000_000 - u,
    ;
    assert(u * u * u + 3 * (u * u * v) == u * u * 1_000_000 + 2 * (u * u * v)) by (nonlinear_arith)
        requires
            v == 1_000_000 - u,
    ;
    assert(0 <= u * u * v && 0 <= u * u * 1_000_000) by (nonlinear_arith)
        requires
            0 <= u,
            0 <= v,
    ;
    assert(u * u * u + 3 * (u * u * v) <= (u + v) * (u + v) * (u + v)) by (nonlinear_arith)
        requires
            0 <= u,
            0 <= v,
    ;
    assert((u + v) * (u + v) * (u + v) == 1_000_000_000_000 * 1_000_000) by (nonlinear_arith)
        requires
            u + v == 1_000_000,
    ;
}

fn eased(auto: bool, since: i64) -> (r: i64)
    requires
        0 <= since,
    ensures
        r == ease(auto, since as int),
        0 <= r <= 1_000_000,
{
    if !auto || since < 1_500_000 {
        return 0;
    }
    let u: i64 = if since - 1_500_000 > 500_000 { 1_000_000 } else { (since - 1_500_000) * 2 };
    proof {
        lemma_ease(u as int);
        assert(0 <= u * u <= 1_000_000 * 1_000_000) by (nonlinear_arith)
            requires
                0 <= u <= 1_000_000,
        ;
    }
    (u as i128 * u as i128 * (3_000_000 - 2 * u as i128) / 1_000_000_000_000) as i64
}

/// The geometry of the grid in a window of height `h`: where it starts and ends, and the height of
/// its text. A row is one and a half times as high.
pub open spec fn grid_top(h: int) -> int {
    part_of(h, 560)
}

pub open spec fn grid_end(h: int) -> int {
    part_of(h, 935)
}

pub open spec fn grid_px(h: int) -> int {
    part_of(h, 45)
}

/// The rows that are looked at: those that fit, one that is cut, and one that comes up.
pub open spec fn grid_rows(h: int) -> int {
    let half = 2 * (grid_end(h) - grid_top(h));
    let row = 3 * grid_px(h);
    (half + row - 1) / row + 1
}

/// The rows of the grid that are looked at in a window of height `h`.
pub fn visible_rows(h: u32) -> (r: usize)
    requires
        200 <= h <= 0x3fff_ffff,
    ensures
        r == grid_rows(h as int),
        2 <= r <= 20,
{
    let half: u32 = 2 * (part(h, 935) - part(h, 560));
    let row: u32 = 3 * part(h, 45);
    proof {
        let (a, b) = (half as int, row as int);
        assert((a + b - 1) / b >= 1) by {
            vstd::arithmetic::div_mod::lemma_div_is_ordered(b, a + b - 1, b);
            vstd::arithmetic::div_mod::lemma_div_by_self(b);
        }
        assert((a + b - 1) / b <= 19) by {
            assert(a + b - 1 < 20 * b);
            vstd::arithmetic::div_mod::lemma_div_by_multiple_is_strongly_ordered(
                a + b - 1,
                20 * b,
                20,
                b,
            );
            vstd::arithmetic::div_mod::lemma_div_by_multiple(20, b);
        }
    }
    ((half + row - 1) / row + 1) as usize
}

/// The channel in row `r` of the grid.
pub open spec fn row_channel(top: int, r: int, n: int) -> int {
    1 + (top + r) % n
}

/// The channel in row `r` of the grid, of `n` channels.
pub fn channel_in_row(top: i64, r: usize, n: usize) -> (ch: usize)
    requires
        0 < n,
    ensures
        ch == row_channel(top as int, r as int, n as int),
        1 <= ch <= n,
{
    proof {
        vstd::arithmetic::div_mod::lemma_mod_bound(top + r, n as int);
    }
    wrap(top as i128 + r as i128, n as i128) as usize + 1
}

/// The upper edge of row `r`, in millionths of a pixel.
pub open spec fn row_top(r: int, frac: int, h: int) -> int {
    grid_top(h) * 1_000_000 + (r * 1_000_000 - frac) * (3 * grid_px(h)) / 2
}

/// Row `r` of the grid: its band, the line above it, and what is on.
pub open spec fn guide_row(
    out: Seq<OpView>,
    top: int,
    auto: bool,
    sel: int,
    r: int,
    frac: int,
    n: int,
    i: ChanInfo,
    w: int,
    h: int,
) -> Seq<OpView> {
    let m = 1_000_000;
    let ch = row_channel(top, r, n);
    let (y0, y1) = (grid_top(h), grid_end(h));
    let px = grid_px(h);
    let t = row_top(r, frac, h);
    let end = t + 1_500_000 * px;
    let base = (t + 1_170_000 * px) / m;
    let ry0 = if t < y0 * m {
        y0
    } else {
        t / m
    };
    let ry1 = if end > y1 * m {
        y1
    } else {
        end / m
    };
    let here = !auto && ch == sel;
    let band = if ry1 > ry0 && here {
        out.push(OpView::Fill(rect(0, ry0, w, ry1), opaque(GUIDE_HILITE)))
    } else if ry1 > ry0 && (top + r) % 2 == 1 {
        out.push(OpView::Fill(rect(0, ry0, w, ry1), opaque(GUIDE_BLUE2)))
    } else {
        out
    };
    let line = if t >= y0 * m {
        band.push(OpView::Fill(rect(0, t / m, w, t / m + 1), opaque(GUIDE_DARK)))
    } else {
        band
    };
    let clipped = |p: int, x: int, c: u32|
        Ink {
            px: p as u32,
            x: x as i32,
            baseline: base as i32,
            color: c,
            right: false,
            top: y0 as i32,
            bottom: y1 as i32,
        };
    line.push(
        OpView::Text(
            decimal_padded(ch as nat, 2),
            clipped(
                px,
                part_of(w, 30),
                if here {
                    0
                } else {
                    GUIDE_YELLOW
                },
            ),
        ),
    ).push(
        OpView::Text(
            first_chars(i.net@, 9),
            clipped(
                part_of(px, 700),
                part_of(w, 90),
                if here {
                    0x00_30_30_30
                } else {
                    GUIDE_GRAY
                },
            ),
        ),
    ).push(
        OpView::Text(
            first_chars(i.now@, 20),
            clipped(
                px,
                part_of(w, 245),
                if here {
                    0
                } else {
                    GUIDE_WHITE
                },
            ),
        ),
    ).push(
        OpView::Text(
            first_chars(i.next@, 19),
            clipped(
                px,
                part_of(w, 625),
                if here {
                    0x00_30_30_30
                } else {
                    GUIDE_GRAY
                },
            ),
        ),
    )
}

/// The rows from `r` on, as far as they start above the ticker.
pub open spec fn guide_grid(
    out: Seq<OpView>,
    top: int,
    auto: bool,
    sel: int,
    r: int,
    frac: int,
    n: int,
    infos: Seq<ChanInfo>,
    w: int,
    h: int,
) -> Seq<OpView>
    decreases grid_rows(h) - r,
{
    if r >= grid_rows(h) || row_top(r, frac, h) >= grid_end(h) * 1_000_000 {
        out
    } else {
        guide_grid(
            guide_row(out, top, auto, sel, r, frac, n, infos[r], w, h),
            top,
            auto,
            sel,
            r + 1,
            frac,
            n,
            infos,
            w,
            h,
        )
    }
}

fn draw_row(
    out: &mut Vec<Op>,
    top: i64,
    auto: bool,
    sel: usize,
    r: usize,
    frac: i64,
    n: usize,
    i: &ChanInfo,
    w: u32,
    h: u32,
)
    requires
        drawable(w as int, h as int),
        0 < n,
        r <= 20,
        0 <= frac <= 1_000_000,
        row_top(r as int, frac as int, h as int) < grid_end(h as int) * 1_000_000,
    ensures
        op_views(final(out)@) == guide_row(
            op_views(old(out)@),
            top as int,
            auto,
            sel as int,
            r as int,
            frac as int,
            n as int,
            *i,
            w as int,
            h as int,
        ),
{
    let m: i64 = 1_000_000;
    let ch = channel_in_row(top, r, n);
    let y0 = part(h, 560);
    let y1 = part(h, 935);
    let px = part(h, 45);
    proof {
        let p = 3 * px;
        let f = r * 1_000_000 - frac;
        assert(-1_000_000 * p <= f * p <= 20_000_000 * p) by (nonlinear_arith)
            requires
                -1_000_000 <= f <= 20_000_000,
                0 <= p,
        ;
    }
    let t: i64 = y0 as i64 * m + div_two((r as i64 * m - frac) * (3 * px as i64));
    let end: i64 = t + 1_500_000 * px as i64;
    let base: i32 = ((t + 1_170_000 * px as i64) / m) as i32;
    let ry0: u32 = if t < y0 as i64 * m { y0 } else { (t / m) as u32 };
    let ry1: u32 = if end > y1 as i64 * m { y1 } else { (end / m) as u32 };
    let here = !auto && ch == sel;
    if ry1 > ry0 {
        if here {
            put(out, Op::Fill(Rect { x0: 0, y0: ry0, x1: w, y1: ry1 }, GUIDE_HILITE | 0xFF00_0000));
        } else if wrap(top as i128 + r as i128, 2) == 1 {
            put(out, Op::Fill(Rect { x0: 0, y0: ry0, x1: w, y1: ry1 }, GUIDE_BLUE2 | 0xFF00_0000));
        }
    }
    if t >= y0 as i64 * m {
        let y: u32 = (t / m) as u32;
        put(out, Op::Fill(Rect { x0: 0, y0: y, x1: w, y1: y + 1 }, GUIDE_DARK | 0xFF00_0000));
    }
    let (c_ch, c_now, c_next) = if here {
        (0, 0, 0x00_30_30_30)
    } else {
        (GUIDE_YELLOW, GUIDE_WHITE, GUIDE_GRAY)
    };
    let mut number = String::new();
    push_padded(&mut number, ch as u64, 2);
    assert(number@ =~= decimal_padded(ch as nat, 2));
    let row = Ink {
        px,
        x: part(w, 30) as i32,
        baseline: base,
        color: c_ch,
        right: false,
        top: y0 as i32,
        bottom: y1 as i32,
    };
    put(out, Op::Text(number, row));
    put(
        out,
        Op::Text(
            cut(i.net.as_str(), 9),
            Ink { px: part(px, 700), x: part(w, 90) as i32, color: c_next, ..row },
        ),
    );
    put(
        out,
        Op::Text(
            cut(i.now.as_str(), 20),
            Ink { x: part(w, 245) as i32, color: c_now, ..row },
        ),
    );
    put(
        out,
        Op::Text(
            cut(i.next.as_str(), 19),
            Ink { x: part(w, 625) as i32, color: c_next, ..row },
        ),
    );
}

/// Half of a number, rounded down.
fn div_two(x: i64) -> (r: i64)
    ensures
        r == x as int / 2,
{
    if x >= 0 {
        x / 2
    } else {
        let q: i64 = x / 2;
        if q * 2 == x {
            q
        } else {
            q - 1
        }
    }
}

fn draw_grid(
    out: &mut Vec<Op>,
    g: &GuideView,
    n: usize,
    infos: &Vec<ChanInfo>,
    w: u32,
    h: u32,
)
    requires
        drawable(w as int, h as int),
        0 < n,
        0 <= g.since_step,
        infos@.len() >= grid_rows(h as int),
    ensures
        op_views(final(out)@) == guide_grid(
            op_views(old(out)@),
            g.top as int,
            g.auto,
            g.sel as int,
            0,
            ease(g.auto, g.since_step as int),
            n as int,
            infos@,
            w as int,
            h as int,
        ),
{
    let ghost start = op_views(out@);
    let frac = eased(g.auto, g.since_step);
    let rows = visible_rows(h);
    let y0 = part(h, 560);
    let y1 = part(h, 935);
    let px = part(h, 45);
    let ghost (gt, gs, gf, gn, gw, gh) = (
        g.top as int,
        g.sel as int,
        frac as int,
        n as int,
        w as int,
        h as int,
    );
    let mut more = true;
    let mut r: usize = 0;
    while more && r < rows
        invariant
            r <= rows == grid_rows(h as int),
            rows <= 20,
            drawable(w as int, h as int),
            0 < n,
            0 <= frac <= 1_000_000,
            infos@.len() >= rows,
            y0 == grid_top(h as int) && y1 == grid_end(h as int) && px == grid_px(h as int),
            gt == g.top && gs == g.sel && gf == frac && gn == n && gw == w && gh == h,
            !more ==> row_top(r as int, gf, gh) >= grid_end(gh) * 1_000_000,
            guide_grid(op_views(out@), gt, g.auto, gs, r as int, gf, gn, infos@, gw, gh)
                == guide_grid(start, gt, g.auto, gs, 0, gf, gn, infos@, gw, gh),
        decreases
            rows - r,
            (if more {
                1int
            } else {
                0
            }),
    {
        proof {
            let p = 3 * px;
            let f = r * 1_000_000 - frac;
            assert(-1_000_000 * p <= f * p <= 20_000_000 * p) by (nonlinear_arith)
                requires
                    -1_000_000 <= f <= 20_000_000,
                    0 <= p,
            ;
        }
        let t: i64 = y0 as i64 * 1_000_000 + div_two(
            (r as i64 * 1_000_000 - frac) * (3 * px as i64),
        );
        if t >= y1 as i64 * 1_000_000 {
            more = false;
        } else {
            draw_row(out, g.top, g.auto, g.sel, r, frac, n, &infos[r], w, h);
            r += 1;
        }
    }
}

/// What the ticker along the bottom says.
pub open spec fn ticker_text(auto: bool, music: Seq<char>) -> Seq<char> {
    let help = if auto {
        "PREVUE  *  ENTER WATCHES THE PREVIEW  *  G INTERACTIVE GUIDE  *  H HELP"@
    } else {
        "GUIDE  *  UP/DOWN SELECT  *  ENTER TUNE  *  G CLOSE  *  H HELP"@
    };
    let playing = if music.len() > 0 {
        help + "  *  NOW PLAYING: "@ + uppercase(music)
    } else {
        help
    };
    playing + "  *  "@
}

/// What the ticker along the bottom says.
pub fn ticker_line(auto: bool, music: &str) -> (r: String)
    ensures
        r@ == ticker_text(auto, music@),
{
    let mut s = if auto {
        "PREVUE  *  ENTER WATCHES THE PREVIEW  *  G INTERACTIVE GUIDE  *  H HELP".to_owned()
    } else {
        "GUIDE  *  UP/DOWN SELECT  *  ENTER TUNE  *  G CLOSE  *  H HELP".to_owned()
    };
    if !music.is_empty() {
        s.append("  *  NOW PLAYING: ");
        let up = to_uppercase(music);
        s.append(up.as_str());
    }
    s.append("  *  ");
    s
}

/// The ticker, `tw` thousandths of a pixel long.
pub open spec fn guide_ticker(
    out: Seq<OpView>,
    auto: bool,
    music: Seq<char>,
    now: int,
    tw: int,
    w: int,
    h: int,
) -> Seq<OpView> {
    let y0 = grid_end(h);
    let bar = out.push(OpView::Fill(rect(0, y0, w, h), opaque(GUIDE_DARK))).push(
        OpView::Bevel(rect(0, y0, w, h), 2, true),
    );
    crawl(
        bar,
        ticker_text(auto, music),
        Ink {
            px: part_of(h, 40) as u32,
            x: 0,
            baseline: (y0 + part_of(h - y0, 760)) as i32,
            color: GUIDE_WHITE,
            right: false,
            top: y0 as i32,
            bottom: h as i32,
        },
        -crawl_shift(now, w, 120, tw),
        tw,
        0,
        w,
    )
}

pub open spec fn guide_screen(
    out: Seq<OpView>,
    g: GuideView,
    i: ChanInfo,
    n: int,
    infos: Seq<ChanInfo>,
    date: Seq<char>,
    clock: Seq<char>,
    tw: int,
    w: int,
    h: int,
) -> Seq<OpView> {
    let panel = guide_panel(out, g.auto, g.preview as int, i, date, clock, w, h);
    let grid = guide_grid(
        guide_header(panel, w, h),
        g.top as int,
        g.auto,
        g.sel as int,
        0,
        ease(g.auto, g.since_step as int),
        n,
        infos,
        w,
        h,
    );
    guide_ticker(grid, g.auto, g.music@, g.now as int, tw, w, h)
}

/// Prevue-style guide: info panel left of the ad box, clock and date, then a grid of `n` channels
/// that steps up one row at a time (hold, then a quick scroll) or follows the cursor, and a
/// scrolling ticker along the bottom, `tw` thousandths of a pixel long. `infos` tell what is on in
/// each row.
pub fn draw_guide(
    out: &mut Vec<Op>,
    g: &GuideView,
    i: &ChanInfo,
    n: usize,
    infos: &Vec<ChanInfo>,
    date: String,
    clock: String,
    tw: i64,
    w: u32,
    h: u32,
)
    requires
        drawable(w as int, h as int),
        0 < n,
        0 <= g.since_step,
        0 <= g.now,
        infos@.len() >= grid_rows(h as int),
        0 < tw <= 0xff_ffff_ffff,
    ensures
        op_views(final(out)@) == guide_screen(
            op_views(old(out)@),
            *g,
            *i,
            n as int,
            infos@,
            date@,
            clock@,
            tw as int,
            w as int,
            h as int,
        ),
{
    draw_panel(out, g.auto, g.preview, i, date, clock, w, h);
    draw_header(out, w, h);
    draw_grid(out, g, n, infos, w, h);
    let y0 = part(h, 935);
    let bar = Rect { x0: 0, y0, x1: w, y1: h };
    put(out, Op::Fill(bar, GUIDE_DARK | 0xFF00_0000));
    put(out, Op::Bevel(bar, 2, true));
    let row = Ink {
        px: part(h, 40),
        x: 0,
        baseline: y0 as i32 + part(h - y0, 760) as i32,
        color: GUIDE_WHITE,
        right: false,
        top: y0 as i32,
        bottom: h as i32,
    };
    let msg = ticker_line(g.auto, g.music.as_str());
    let shift = shift_of(g.now, w, 120, tw);
    draw_crawl(out, msg.as_str(), row, -shift, tw, 0, w);
}

/// The full rows that fit between the header and the ticker; two at least.
pub open spec fn full_rows(h: int) -> int {
    let diff = 2 * (grid_end(h) - grid_top(h));
    let row = 3 * grid_px(h);
    if row == 0 {
        if diff == 0 {
            2
        } else {
            i64::MAX as int
        }
    } else if diff / row < 2 {
        2
    } else {
        diff / row
    }
}

/// The rows that the guide's cursor moves over before the grid scrolls, in a window of height `h`.
pub fn guide_rows(h: u32) -> (r: i64)
    ensures
        r == full_rows(h as int),
        r >= 2,
{
    let diff: u64 = 2 * (part(h, 935) as u64 - part(h, 560) as u64);
    let row: u64 = 3 * part(h, 45) as u64;
    if row == 0 {
        if diff == 0 {
            2
        } else {
            i64::MAX
        }
    } else {
        let q: u64 = diff / row;
        proof {
            vstd::arithmetic::div_mod::lemma_div_is_ordered_by_denominator(
                diff as int,
                1,
                row as int,
            );
        }
        if q < 2 {
            2
        } else {
            q as i64
        }
    }
}

pub proof fn lemma_crawl_fits(
    out: Seq<OpView>,
    text: Seq<char>,
    i: Ink,
    sx: int,
    tw: int,
    from: int,
    w: int,
    h: int,
)
    requires
        all_within(out, w, h),
    ensures
        all_within(crawl(out, text, i, sx, tw, from, w), w, h),
    decreases
            if sx < w * 1000 {
                w * 1000 - sx
            } else {
                0
            },
{
    if sx < w * 1000 && tw > 0 {
        let next = if sx + tw > from {
            out.push(OpView::Text(text, Ink { x: whole(sx) as i32, ..i }))
        } else {
            out
        };
        lemma_crawl_fits(next, text, i, sx + tw, tw, from, w, h);
    }
}

proof fn lemma_grid_fits(
    out: Seq<OpView>,
    top: int,
    auto: bool,
    sel: int,
    r: int,
    frac: int,
    n: int,
    infos: Seq<ChanInfo>,
    w: int,
    h: int,
)
    requires
        drawable(w, h),
        0 <= r,
        0 <= frac <= 1_000_000,
        all_within(out, w, h),
    ensures
        all_within(guide_grid(out, top, auto, sel, r, frac, n, infos, w, h), w, h),
    decreases grid_rows(h) - r,
{
    if r < grid_rows(h) && row_top(r, frac, h) < grid_end(h) * 1_000_000 {
        let t = row_top(r, frac, h);
        let p = 3 * grid_px(h);
        let f = r * 1_000_000 - frac;
        assert(-1_000_000 * p <= f * p) by (nonlinear_arith)
            requires
                -1_000_000 <= f,
                0 <= p,
        ;
        let next = guide_row(out, top, auto, sel, r, frac, n, infos[r], w, h);
        assert(all_within(next, w, h));
        lemma_grid_fits(next, top, auto, sel, r + 1, frac, n, infos, w, h);
    }
}

/// The guide keeps within the window.
pub proof fn the_guide_fits(
    g: GuideView,
    i: ChanInfo,
    n: int,
    infos: Seq<ChanInfo>,
    date: Seq<char>,
    clock: Seq<char>,
    tw: int,
    w: int,
    h: int,
)
    requires
        drawable(w, h),
        0 <= g.since_step,
    ensures
        all_within(
            guide_screen(guide_frame(w, h), g, i, n, infos, date, clock, tw, w, h),
            w,
            h,
        ),
{
    let frame = guide_frame(w, h);
    assert(all_within(frame, w, h));
    let panel = guide_panel(frame, g.auto, g.preview as int, i, date, clock, w, h);
    assert(all_within(panel, w, h));
    let header = guide_header(panel, w, h);
    assert(all_within(header, w, h));
    let frac = ease(g.auto, g.since_step as int);
    lemma_ease_range(g.auto, g.since_step as int);
    lemma_grid_fits(header, g.top as int, g.auto, g.sel as int, 0, frac, n, infos, w, h);
    let grid = guide_grid(
        header,
        g.top as int,
        g.auto,
        g.sel as int,
        0,
        frac,
        n,
        infos,
        w,
        h,
    );
    let y0 = grid_end(h);
    let bar = grid.push(OpView::Fill(rect(0, y0, w, h), opaque(GUIDE_DARK))).push(
        OpView::Bevel(rect(0, y0, w, h), 2, true),
    );
    assert(all_within(bar, w, h));
    lemma_crawl_fits(
        bar,
        ticker_text(g.auto, g.music@),
        Ink {
            px: part_of(h, 40) as u32,
            x: 0,
            baseline: (y0 + part_of(h - y0, 760)) as i32,
            color: GUIDE_WHITE,
            right: false,
            top: y0 as i32,
            bottom: h as i32,
        },
        -crawl_shift(g.now as int, w, 120, tw),
        tw,
        0,
        w,
        h,
    );
}

proof fn lemma_ease_range(auto: bool, since: int)
    requires
        0 <= since,
    ensures
        0 <= ease(auto, since) <= 1_000_000,
{
    let t = (since - 1_500_000) * 2;
    let u = if t > 1_000_000 {
        1_000_000
    } else {
        t
    };
    if auto && since >= 1_500_000 {
        lemma_ease(u);
    }
}

// ---------------------------------------------------------------- what stands where

/// The four cells of a row: the channel's number, its network, what is on now, and what is next.
spec fn row_cells(
    s: Seq<OpView>,
    k: int,
    top: int,
    auto: bool,
    sel: int,
    r: int,
    n: int,
    i: ChanInfo,
    w: int,
) -> bool {
    &&& s[k]->Text_1.color == (if !auto && row_channel(top, r, n) == sel {
        0
    } else {
        GUIDE_YELLOW
    })
    &&& 0 <= k && k + 4 <= s.len()
    &&& s[k] matches OpView::Text(a, ia) && a == decimal_padded(row_channel(top, r, n) as nat, 2)
        && ia.x == part_of(w, 30) && !ia.right
    &&& s[k + 1] matches OpView::Text(b, ib) && begins_with(b, i.net@, 9) && ib.x == part_of(w, 90)
        && !ib.right
    &&& s[k + 2] matches OpView::Text(c, ic) && begins_with(c, i.now@, 20) && ic.x == part_of(
        w,
        245,
    ) && !ic.right
    &&& s[k + 3] matches OpView::Text(d, id) && begins_with(d, i.next@, 19) && id.x == part_of(
        w,
        625,
    ) && !id.right
    &&& s[k]->Text_1.baseline == s[k + 1]->Text_1.baseline == s[k + 2]->Text_1.baseline == s[k
        + 3]->Text_1.baseline
}

proof fn lemma_row_cells(
    out: Seq<OpView>,
    top: int,
    auto: bool,
    sel: int,
    r: int,
    frac: int,
    n: int,
    i: ChanInfo,
    w: int,
    h: int,
) -> (k: int)
    requires
        drawable(w, h),
    ensures
        ({
            let s = guide_row(out, top, auto, sel, r, frac, n, i, w, h);
            &&& out.len() <= k == s.len() - 4
            &&& s.take(out.len() as int) == out
            &&& row_cells(s, k, top, auto, sel, r, n, i, w)
        }),
{
    let s = guide_row(out, top, auto, sel, r, frac, n, i, w, h);
    cutting_keeps_the_beginning(i.net@, 9);
    cutting_keeps_the_beginning(i.now@, 20);
    cutting_keeps_the_beginning(i.next@, 19);
    assert(s.take(out.len() as int) =~= out);
    s.len() - 4
}

proof fn lemma_grid_extends(
    out: Seq<OpView>,
    top: int,
    auto: bool,
    sel: int,
    r: int,
    frac: int,
    n: int,
    infos: Seq<ChanInfo>,
    w: int,
    h: int,
)
    requires
        drawable(w, h),
    ensures
        ({
            let s = guide_grid(out, top, auto, sel, r, frac, n, infos, w, h);
            s.len() >= out.len() && s.take(out.len() as int) == out
        }),
    decreases grid_rows(h) - r,
{
    let s = guide_grid(out, top, auto, sel, r, frac, n, infos, w, h);
    if r < grid_rows(h) && row_top(r, frac, h) < grid_end(h) * 1_000_000 {
        let next = guide_row(out, top, auto, sel, r, frac, n, infos[r], w, h);
        let k = lemma_row_cells(out, top, auto, sel, r, frac, n, infos[r], w, h);
        lemma_grid_extends(next, top, auto, sel, r + 1, frac, n, infos, w, h);
        assert(s.take(out.len() as int) =~= next.take(out.len() as int)) by {
            assert forall|x: int| 0 <= x < out.len() implies s[x] == next[x] by {
                assert(s.take(next.len() as int)[x] == s[x]);
            }
        }
    } else {
        assert(s.take(out.len() as int) =~= out);
    }
}

proof fn lemma_rows_go_down(r: int, q: int, frac: int, h: int)
    requires
        200 <= h,
        r <= q,
    ensures
        row_top(r, frac, h) <= row_top(q, frac, h),
{
    let p = 3 * grid_px(h);
    assert((r * 1_000_000 - frac) * p <= (q * 1_000_000 - frac) * p) by (nonlinear_arith)
        requires
            r <= q,
            0 <= p,
    ;
    vstd::arithmetic::div_mod::lemma_div_is_ordered(
        (r * 1_000_000 - frac) * p,
        (q * 1_000_000 - frac) * p,
        2,
    );
}

proof fn lemma_grid_cells(
    out: Seq<OpView>,
    top: int,
    auto: bool,
    sel: int,
    r: int,
    q: int,
    frac: int,
    n: int,
    infos: Seq<ChanInfo>,
    w: int,
    h: int,
) -> (k: int)
    requires
        drawable(w, h),
        r <= q < grid_rows(h),
        row_top(q, frac, h) < grid_end(h) * 1_000_000,
    ensures
        out.len() <= k,
        row_cells(
            guide_grid(out, top, auto, sel, r, frac, n, infos, w, h),
            k,
            top,
            auto,
            sel,
            q,
            n,
            infos[q],
            w,
        ),
    decreases grid_rows(h) - r,
{
    let s = guide_grid(out, top, auto, sel, r, frac, n, infos, w, h);
    lemma_rows_go_down(r, q, frac, h);
    let next = guide_row(out, top, auto, sel, r, frac, n, infos[r], w, h);
    let k = lemma_row_cells(out, top, auto, sel, r, frac, n, infos[r], w, h);
    if r == q {
        lemma_grid_extends(next, top, auto, sel, r + 1, frac, n, infos, w, h);
        assert forall|x: int| k <= x < k + 4 implies s[x] == next[x] by {
            assert(s.take(next.len() as int)[x] == s[x]);
        }
        k
    } else {
        lemma_grid_cells(next, top, auto, sel, r + 1, q, frac, n, infos, w, h)
    }
}

pub proof fn lemma_crawl_extends(
    out: Seq<OpView>,
    text: Seq<char>,
    i: Ink,
    sx: int,
    tw: int,
    from: int,
    w: int,
)
    ensures
        ({
            let s = crawl(out, text, i, sx, tw, from, w);
            s.len() >= out.len() && forall|x: int| 0 <= x < out.len() ==> #[trigger] s[x] == out[x]
        }),
    decreases
            if sx < w * 1000 {
                w * 1000 - sx
            } else {
                0
            },
{
    if sx < w * 1000 && tw > 0 {
        let next = if sx + tw > from {
            out.push(OpView::Text(text, Ink { x: whole(sx) as i32, ..i }))
        } else {
            out
        };
        lemma_crawl_extends(next, text, i, sx + tw, tw, from, w);
        let s = crawl(out, text, i, sx, tw, from, w);
        assert forall|x: int| 0 <= x < out.len() implies #[trigger] s[x] == out[x] by {
            assert(next[x] == out[x]);
        }
    }
}

/// Under each header of the guide stands what it announces. In every row that is drawn, the cell
/// at the left edge of the header CH is the number of the row's channel, the one at that of NOW
/// begins what is on now on it, and the one at that of NEXT what is next; the network's name stands
/// between the number and NOW. All four are on one line. In the interactive guide the number of the
/// cursor's channel, and no other, is black.
pub proof fn cells_stand_under_their_headers(
    out: Seq<OpView>,
    g: GuideView,
    i: ChanInfo,
    n: int,
    infos: Seq<ChanInfo>,
    date: Seq<char>,
    clock: Seq<char>,
    tw: int,
    w: int,
    h: int,
    r: int,
) -> (at: (int, int))
    requires
        drawable(w, h),
        0 <= r < grid_rows(h),
        row_top(r, ease(g.auto, g.since_step as int), h) < grid_end(h) * 1_000_000,
    ensures
        ({
            let s = guide_screen(out, g, i, n, infos, date, clock, tw, w, h);
            let (a, k) = at;
            &&& 0 <= a && a + 2 < k && k + 4 <= s.len()
            &&& s[a] matches OpView::Text(t, ink) && t == "CH"@
            &&& s[a + 1] matches OpView::Text(t, ink) && t == "NOW"@
            &&& s[a + 2] matches OpView::Text(t, ink) && t == "NEXT"@
            &&& s[k] matches OpView::Text(t, ink) && t == decimal_padded(
                (1 + (g.top + r) % n) as nat,
                2,
            ) && ink.x == s[a]->Text_1.x && ink.color == (if !g.auto && 1 + (g.top + r) % n
                == g.sel {
                0
            } else {
                GUIDE_YELLOW
            })
            &&& s[k + 1] matches OpView::Text(t, ink) && begins_with(t, infos[r].net@, 9)
                && s[a]->Text_1.x < ink.x < s[a + 1]->Text_1.x
            &&& s[k + 2] matches OpView::Text(t, ink) && begins_with(t, infos[r].now@, 20) && ink.x
                == s[a + 1]->Text_1.x
            &&& s[k + 3] matches OpView::Text(t, ink) && begins_with(t, infos[r].next@, 19) && ink.x
                == s[a + 2]->Text_1.x
            &&& s[a + 1]->Text_1.x < s[a + 2]->Text_1.x
            &&& s[k]->Text_1.baseline == s[k + 1]->Text_1.baseline == s[k + 2]->Text_1.baseline
                == s[k + 3]->Text_1.baseline
        }),
{
    let s = guide_screen(out, g, i, n, infos, date, clock, tw, w, h);
    let frac = ease(g.auto, g.since_step as int);
    let panel = guide_panel(out, g.auto, g.preview as int, i, date, clock, w, h);
    let header = guide_header(panel, w, h);
    let (top, sel) = (g.top as int, g.sel as int);
    let grid = guide_grid(header, top, g.auto, sel, 0, frac, n, infos, w, h);
    lemma_grid_extends(header, top, g.auto, sel, 0, frac, n, infos, w, h);
    let k = lemma_grid_cells(header, top, g.auto, sel, 0, r, frac, n, infos, w, h);
    let a = header.len() - 3;
    assert forall|x: int| 0 <= x < header.len() implies #[trigger] grid[x] == header[x] by {
        assert(grid.take(header.len() as int)[x] == grid[x]);
    }
    let y0 = grid_end(h);
    let bar = grid.push(OpView::Fill(rect(0, y0, w, h), opaque(GUIDE_DARK))).push(
        OpView::Bevel(rect(0, y0, w, h), 2, true),
    );
    lemma_crawl_extends(
        bar,
        ticker_text(g.auto, g.music@),
        Ink {
            px: part_of(h, 40) as u32,
            x: 0,
            baseline: (y0 + part_of(h - y0, 760)) as i32,
            color: GUIDE_WHITE,
            right: false,
            top: y0 as i32,
            bottom: h as i32,
        },
        -crawl_shift(g.now as int, w, 120, tw),
        tw,
        0,
        w,
    );
    assert forall|x: int| 0 <= x < grid.len() implies #[trigger] s[x] == grid[x] by {
        assert(bar[x] == grid[x]);
    }
    (a, k)
}

/// What the panel says, from the top down: which channel the preview is of and its network, what is
/// on there now, what is next, the time left where any is, the date and the clock.
pub proof fn the_panel_says_what_is_previewed(
    out: Seq<OpView>,
    auto: bool,
    preview: int,
    i: ChanInfo,
    date: Seq<char>,
    clock: Seq<char>,
    w: int,
    h: int,
)
    requires
        drawable(w, h),
        0 <= preview,
    ensures
        ({
            let s = guide_panel(out, auto, preview, i, date, clock, w, h);
            let k = out.len() as int;
            let e = s.len() as int;
            &&& s.take(k) == out
            &&& e == k + (if i.left > 0 {
                6int
            } else {
                5
            })
            &&& s[k] matches OpView::Text(t, a) && t == (if auto {
                "PREVIEW"@
            } else {
                "SELECTED"@
            }) + "  CH "@ + decimal_padded(preview as nat, 2) + "  "@ + first_chars(i.net@, 14)
            &&& s[k + 1] matches OpView::Text(t, a) && begins_with(t, i.now@, 26)
            &&& s[k + 2] matches OpView::Text(t, a) && t.take(6) == "NEXT  "@ && begins_with(
                t.skip(6),
                i.next@,
                26,
            )
            &&& i.left > 0 ==> (s[k + 3] matches OpView::Text(t, a) && t == time_left(
                i.left as int,
            ) + " LEFT"@)
            &&& s[e - 2] matches OpView::Text(t, a) && t == date
            &&& s[e - 1] matches OpView::Text(t, a) && t == clock
            &&& forall|x: int|
                k <= x < e - 1 ==> (#[trigger] s[x])->Text_1.baseline < s[x + 1]->Text_1.baseline
                    && s[x]->Text_1.x == s[k]->Text_1.x
        }),
{
    let s = guide_panel(out, auto, preview, i, date, clock, w, h);
    cutting_keeps_the_beginning(i.now@, 26);
    cutting_keeps_the_beginning(i.next@, 26);
    reveal_strlit("NEXT  ");
    let next = headed("NEXT  "@, i.next@, 26);
    assert(next.take(6) =~= "NEXT  "@);
    assert(next.skip(6) =~= first_chars(i.next@, 26));
    assert(s.take(out.len() as int) =~= out);
}

/// The rows of the grid are the channels one after the other, from the one behind the top row's place
/// on, round the list.
pub proof fn rows_are_the_channels_in_order(top: int, r: int, n: int)
    requires
        0 < n,
        0 <= top < n,
        0 <= r,
    ensures
        row_channel(top, 0, n) == top + 1,
        1 <= row_channel(top, r, n) <= n,
        row_channel(top, r + 1, n) == (if row_channel(top, r, n) == n {
            1
        } else {
            row_channel(top, r, n) + 1
        }),
{
    let x = top + r;
    let (q, m) = (x / n, x % n);
    vstd::arithmetic::div_mod::lemma_fundamental_div_mod(x, n);
    vstd::arithmetic::div_mod::lemma_mod_bound(x, n);
    vstd::arithmetic::div_mod::lemma_small_mod(top as nat, n as nat);
    if m + 1 < n {
        assert(x + 1 == q * n + (m + 1)) by (nonlinear_arith)
            requires
                x == n * q + m,
        ;
        vstd::arithmetic::div_mod::lemma_fundamental_div_mod_converse(x + 1, n, q, m + 1);
    } else {
        assert(x + 1 == (q + 1) * n + 0) by (nonlinear_arith)
            requires
                x == n * q + m,
                m + 1 == n,
        ;
        vstd::arithmetic::div_mod::lemma_fundamental_div_mod_converse(x + 1, n, q + 1, 0);
    }
    assert(top + (r + 1) == x + 1);
}

/// The row of the cursor is the one that is lit, in the interactive guide alone: any other row has a
/// band in the other shade of blue or none.
pub proof fn the_cursor_row_is_lit(
    out: Seq<OpView>,
    top: int,
    auto: bool,
    sel: int,
    r: int,
    frac: int,
    n: int,
    i: ChanInfo,
    w: int,
    h: int,
)
    ensures
        ({
            let s = guide_row(out, top, auto, sel, r, frac, n, i, w, h);
            let here = !auto && row_channel(top, r, n) == sel;
            &&& !here ==> forall|k: int|
                out.len() <= k < s.len() ==> !(#[trigger] s[k] matches OpView::Fill(a, c) && c
                    == opaque(GUIDE_HILITE))
            &&& here ==> forall|k: int|
                out.len() <= k < s.len() ==> !(#[trigger] s[k] matches OpView::Fill(a, c) && c
                    == opaque(GUIDE_BLUE2))
            &&& here ==> s[s.len() - 4]->Text_1.color == 0
            &&& !here ==> s[s.len() - 4]->Text_1.color == GUIDE_YELLOW
        }),
{
    assert(0x00_e8_d0_40u32 | 0xFF00_0000 != 0x00_14_14_b0u32 | 0xFF00_0000) by (bit_vector);
    assert(0x00_e8_d0_40u32 | 0xFF00_0000 != 0x00_08_08_60u32 | 0xFF00_0000) by (bit_vector);
    assert(0x00_14_14_b0u32 | 0xFF00_0000 != 0x00_08_08_60u32 | 0xFF00_0000) by (bit_vector);
}

/// The grid rests for a second and a half after a step and is one row further up half a second later;
/// between the two it only goes up. In the interactive guide it rests.
pub proof fn the_grid_eases_up(a: int, b: int)
    requires
        0 <= a <= b,
    ensures
        a < 1_500_000 ==> ease(true, a) == 0,
        a >= 2_000_000 ==> ease(true, a) == 1_000_000,
        ease(true, a) <= ease(true, b),
        ease(false, a) == 0,
{
    lemma_ease_range(true, a);
    lemma_ease_range(true, b);
    let u = if (a - 1_500_000) * 2 > 1_000_000 {
        1_000_000
    } else {
        (a - 1_500_000) * 2
    };
    let v = if (b - 1_500_000) * 2 > 1_000_000 {
        1_000_000
    } else {
        (b - 1_500_000) * 2
    };
    if a >= 1_500_000 {
        lemma_ease_grows(u, v);
        vstd::arithmetic::div_mod::lemma_div_is_ordered(
            u * u * (3_000_000 - 2 * u),
            v * v * (3_000_000 - 2 * v),
            1_000_000_000_000,
        );
        if a >= 2_000_000 {
            assert(1_000_000int * 1_000_000 * (3_000_000 - 2 * 1_000_000) == 1_000_000_000_000
                * 1_000_000) by (nonlinear_arith);
        }
    }
}

proof fn lemma_ease_grows(u: int, v: int)
    requires
        0 <= u <= v <= 1_000_000,
    ensures
        u * u * (3_000_000 - 2 * u) <= v * v * (3_000_000 - 2 * v),
{
    // The difference is (v - u) * (3m (u + v) - 2 (u u + u v + v v)), and u u <= m u, and so on.
    let m: int = 1_000_000;
    let k = 3 * m * (u + v) - 2 * (u * u + u * v + v * v);
    assert(k >= 0) by (nonlinear_arith)
        requires
            k == 3 * m * (u + v) - 2 * (u * u + u * v + v * v),
            0 <= u <= v <= m,
    ;
    assert(v * v * (3 * m - 2 * v) - u * u * (3 * m - 2 * u) == (v - u) * k) by (nonlinear_arith)
        requires
            k == 3 * m * (u + v) - 2 * (u * u + u * v + v * v),
    ;
    assert((v - u) * k >= 0) by (nonlinear_arith)
        requires
            u <= v,
            k >= 0,
    ;
}

/// A crawl goes at its speed: in a second it has gone on by so many thousandths of the window's
/// width, round its own length.
pub proof fn a_crawl_goes_at_its_speed(t: int, w: int, speed: int, tw: int)
    requires
        0 < tw,
    ensures
        crawl_shift(t + 1_000_000, w, speed, tw) == (crawl_shift(t, w, speed, tw) + w * speed) % tw,
        crawl_shift(0, w, speed, tw) == 0,
{
    let x = t * w * speed;
    assert((t + 1_000_000) * w * speed == x + 1_000_000 * (w * speed)) by (nonlinear_arith)
        requires
            x == t * w * speed,
    ;
    assert((x + 1_000_000 * (w * speed)) / 1_000_000 == x / 1_000_000 + w * speed) by {
        vstd::arithmetic::div_mod::lemma_hoist_over_denominator(x, w * speed, 1_000_000);
    }
    vstd::arithmetic::div_mod::lemma_add_mod_noop(x / 1_000_000, w * speed, tw);
    vstd::arithmetic::div_mod::lemma_add_mod_noop((x / 1_000_000) % tw, w * speed, tw);
    vstd::arithmetic::div_mod::lemma_mod_twice(x / 1_000_000, tw);
    assert(0 * w * speed == 0) by (nonlinear_arith);
    vstd::arithmetic::div_mod::lemma_small_mod(0, tw as nat);
}

/// The rows of the grid are stacked: each is one and a half times the size of its text below the one
/// above it, the first one is at the top of the grid where it rests, and where it has gone up by a
/// row each is where the one above it was.
pub proof fn rows_are_stacked(r: int, frac: int, h: int)
    ensures
        row_top(r + 1, frac, h) == row_top(r, frac, h) + 1_500_000 * grid_px(h),
        row_top(0, 0, h) == grid_top(h) * 1_000_000,
        row_top(r + 1, 1_000_000, h) == row_top(r, 0, h),
{
    let p = 3 * grid_px(h);
    let a = (r * 1_000_000 - frac) * p;
    assert(((r + 1) * 1_000_000 - frac) * p == a + 1_000_000 * p) by (nonlinear_arith)
        requires
            a == (r * 1_000_000 - frac) * p,
    ;
    assert((r + 1) * 1_000_000 - 1_000_000 == r * 1_000_000 - 0);
    assert(0 * p == 0) by (nonlinear_arith);
}

/// A length in whole pixels is less than a pixel off, toward zero.
pub proof fn whole_pixels_are_nearest_to_zero(x: int)
    ensures
        0 <= x ==> 0 <= x - whole(x) * 1000 < 1000 && whole(x) >= 0,
        x <= 0 ==> 0 <= whole(x) * 1000 - x < 1000 && whole(x) <= 0,
{
}

/// A crawl is the same text over and over, side by side: the copies stand as far apart as the text
/// is wide, the first one where it begins, and the last one reaches the right edge of the window.
pub proof fn a_crawl_repeats_side_by_side(
    out: Seq<OpView>,
    text: Seq<char>,
    i: Ink,
    sx: int,
    tw: int,
    from: int,
    w: int,
    k: int,
)
    requires
        0 < tw,
        from < sx + tw,
        0 <= k,
    ensures
        ({
            let s = crawl(out, text, i, sx, tw, from, w);
            let at = out.len() + k;
            &&& sx + k * tw < w * 1000 ==> at < s.len() && s[at] == OpView::Text(
                text,
                Ink { x: whole(sx + k * tw) as i32, ..i },
            )
            &&& sx + k * tw >= w * 1000 ==> s.len() <= at
        }),
    decreases
            if sx < w * 1000 {
                w * 1000 - sx
            } else {
                0
            },
{
    let s = crawl(out, text, i, sx, tw, from, w);
    if sx >= w * 1000 {
        assert(0 <= k * tw) by (nonlinear_arith)
            requires
                0 <= k,
                0 < tw,
        ;
    } else {
        let next = out.push(OpView::Text(text, Ink { x: whole(sx) as i32, ..i }));
        lemma_crawl_extends(next, text, i, sx + tw, tw, from, w);
        if k == 0 {
            assert(s.take(next.len() as int)[out.len() as int] == s[out.len() as int]);
            assert(0 * tw == 0) by (nonlinear_arith);
        } else {
            a_crawl_repeats_side_by_side(next, text, i, sx + tw, tw, from, w, k - 1);
            assert(sx + tw + (k - 1) * tw == sx + k * tw) by (nonlinear_arith);
        }
    }
}

/// The hole in the guide's background through which the preview is seen is the ad box: in the upper
/// right quarter of the window, and the frame is sunken and three pixels wide all round it.
pub proof fn the_preview_is_framed(w: int, h: int)
    requires
        drawable(w, h),
    ensures
        ({
            let b = ad_box(w, h);
            let f = guide_frame(w, h);
            &&& w < 2 * b.x0 && b.x0 < b.x1 < w && 0 < b.y0 < b.y1 && 2 * b.y1 < h
            &&& f.len() == 3
            &&& f[0] == OpView::Clear(opaque(GUIDE_BLUE))
            &&& f[1] == OpView::Fill(b, 0)
            &&& f[2] matches OpView::Bevel(r, t, up) && t == 3 && !up && b.x0 - r.x0 == 3 && b.y0
                - r.y0 == 3 && r.x1 - b.x1 == 3 && r.y1 - b.y1 == 3
        }),
{
}

/// The way up is even: as far as the grid has come some time after it set out, so far it has still to
/// go that time before it arrives, but for a millionth of a row.
pub proof fn the_grid_eases_evenly(a: int)
    requires
        0 <= a <= 500_000,
    ensures
        999_999 <= ease(true, 1_500_000 + a) + ease(true, 2_000_000 - a) <= 1_000_000,
{
    let u = 2 * a;
    let v = 1_000_000 - u;
    let (x, y) = (u * u * (3_000_000 - 2 * u), v * v * (3_000_000 - 2 * v));
    assert(x + y == 1_000_000_000_000_000_000) by (nonlinear_arith)
        requires
            v == 1_000_000 - u,
            x == u * u * (3_000_000 - 2 * u),
            y == v * v * (3_000_000 - 2 * v),
    ;
    assert(x / 1_000_000_000_000 + y / 1_000_000_000_000 <= 1_000_000);
    assert(x / 1_000_000_000_000 + y / 1_000_000_000_000 >= 999_999);
    assert(0 * 0 * 3_000_000 == 0);
}

/// The rows that are looked at fill the grid, wherever it is on its way up, and all but the last two
/// of them begin in it where it rests.
pub proof fn the_rows_fill_the_grid(h: int, frac: int)
    requires
        200 <= h,
        0 <= frac <= 1_000_000,
    ensures
        row_top(grid_rows(h), frac, h) >= grid_end(h) * 1_000_000,
        row_top(grid_rows(h) - 2, 0, h) < grid_end(h) * 1_000_000,
        grid_rows(h) >= 2,
{
    let (n, p) = (grid_rows(h), 3 * grid_px(h));
    let half = 2 * (grid_end(h) - grid_top(h));
    let q = (half + p - 1) / p;
    vstd::arithmetic::div_mod::lemma_fundamental_div_mod(half + p - 1, p);
    vstd::arithmetic::div_mod::lemma_mod_bound(half + p - 1, p);
    assert(q * p >= half && (q - 1) * p < half) by (nonlinear_arith)
        requires
            half + p - 1 == p * q + (half + p - 1) % p,
            0 <= (half + p - 1) % p < p,
    ;
    assert(n == q + 1);
    assert((n * 1_000_000 - frac) * p >= q * p * 1_000_000) by (nonlinear_arith)
        requires
            n == q + 1,
            0 <= frac <= 1_000_000,
            0 <= p,
    ;
    assert(((n - 2) * 1_000_000 - 0) * p == (q - 1) * p * 1_000_000) by (nonlinear_arith)
        requires
            n == q + 1,
    ;
    assert(q >= 1) by (nonlinear_arith)
        requires
            q * p >= half,
            half > 0,
            p > 0,
    ;
}

/// The ticker says first which guide it is, and at the end which music is on, where any is.
pub proof fn the_ticker_names_the_music(auto: bool, music: Seq<char>)
    ensures
        ({
            let t = ticker_text(auto, music);
            let end = t.len() - 5;
            &&& end > 10 && t.skip(end) == "  *  "@
            &&& auto ==> t.take(6) == "PREVUE"@
            &&& !auto ==> t.take(5) == "GUIDE"@
            &&& music.len() > 0 ==> t == ticker_text(auto, Seq::empty()).take(
                ticker_text(auto, Seq::empty()).len() - 5,
            ) + "  *  NOW PLAYING: "@ + uppercase(music) + "  *  "@
        }),
{
    reveal_strlit("PREVUE  *  ENTER WATCHES THE PREVIEW  *  G INTERACTIVE GUIDE  *  H HELP");
    reveal_strlit("GUIDE  *  UP/DOWN SELECT  *  ENTER TUNE  *  G CLOSE  *  H HELP");
    reveal_strlit("  *  ");
    reveal_strlit("PREVUE");
    reveal_strlit("GUIDE");
    reveal_strlit("  *  NOW PLAYING: ");
    let t = ticker_text(auto, music);
    let e = ticker_text(auto, Seq::empty());
    let help = if auto {
        "PREVUE  *  ENTER WATCHES THE PREVIEW  *  G INTERACTIVE GUIDE  *  H HELP"@
    } else {
        "GUIDE  *  UP/DOWN SELECT  *  ENTER TUNE  *  G CLOSE  *  H HELP"@
    };
    assert(t.skip(t.len() - 5) =~= "  *  "@);
    assert(e.take(e.len() - 5) =~= help);
    if auto {
        assert(t.take(6) =~= "PREVUE"@);
    } else {
        assert(t.take(5) =~= "GUIDE"@);
    }
}

/// As many rows count as full as fit in the grid where it rests, one below the other, and no fewer
/// than two.
pub proof fn full_rows_fit_in_the_grid(h: int)
    requires
        200 <= h,
    ensures
        full_rows(h) >= 2,
        full_rows(h) > 2 ==> row_top(full_rows(h), 0, h) <= grid_end(h) * 1_000_000,
        row_top(full_rows(h) + 1, 0, h) > grid_end(h) * 1_000_000,
{
    let (n, p) = (full_rows(h), 3 * grid_px(h));
    let diff = 2 * (grid_end(h) - grid_top(h));
    let q = diff / p;
    vstd::arithmetic::div_mod::lemma_fundamental_div_mod(diff, p);
    vstd::arithmetic::div_mod::lemma_mod_bound(diff, p);
    assert(q * p <= diff < (q + 1) * p) by (nonlinear_arith)
        requires
            diff == p * q + diff % p,
            0 <= diff % p < p,
    ;
    assert((n * 1_000_000 - 0) * p == n * p * 1_000_000) by (nonlinear_arith);
    assert(((n + 1) * 1_000_000 - 0) * p == (n + 1) * p * 1_000_000) by (nonlinear_arith);
    assert((n + 1) * p >= (q + 1) * p) by (nonlinear_arith)
        requires
            n >= q,
            p >= 0,
    ;
}

} // verus!
