//! What is drawn over the picture, as lists of drawing steps: the TV set's own display and its
//! set up menu, the cable box's banner, and what channels put over their own picture.
//!
//! Sizes and places are thousandths of the window.

use vstd::prelude::*;
use crate::raster::{bevel, bevel_fits, beveled, fill_rect, filled, rect_fits, tint_rect, tinted};

verus! {

pub const GUIDE_BLUE: u32 = 0x00_10_10_a0;

pub const GUIDE_BLUE2: u32 = 0x00_14_14_b0;  // alternate grid rows

pub const GUIDE_DARK: u32 = 0x00_08_08_60;

pub const GUIDE_HILITE: u32 = 0x00_e8_d0_40;  // cursor row (black text on it)

pub const GUIDE_YELLOW: u32 = 0x00_ff_e0_40;

pub const GUIDE_GRAY: u32 = 0x00_c8_c8_c8;

pub const GUIDE_WHITE: u32 = 0x00_ff_ff_ff;

/// The largest window that can be drawn on, either way: a place twice as far is one that 32 bits
/// can still say.
pub const SIZE_MAX: u32 = 0x3fff_ffff;

// ---------------------------------------------------------------- drawing steps

#[derive(Clone, Copy, PartialEq, Eq, Structural, Debug)]
pub struct Rect {
    pub x0: u32,
    pub y0: u32,
    pub x1: u32,
    pub y1: u32,
}

/// How a text is set: `x` is its right edge where `right`, else its left edge. Rows above `top` or
/// from `bottom` on are not drawn.
#[derive(Clone, Copy, PartialEq, Eq, Structural, Debug)]
pub struct Ink {
    pub px: u32,
    pub x: i32,
    pub baseline: i32,
    pub color: u32,
    pub right: bool,
    pub top: i32,
    pub bottom: i32,
}

/// One drawing step.
pub enum Op {
    /// The whole window in one colour.
    Clear(u32),
    Fill(Rect, u32),
    /// A colour at an opacity.
    Tint(Rect, u32, u32),
    /// So many pixels thick, raised or sunken.
    Bevel(Rect, u32, bool),
    Text(String, Ink),
    /// The channel's logo at (x, y), at an opacity.
    Bug(i32, i32, u8),
}

#[verifier::ext_equal]
pub enum OpView {
    Clear(u32),
    Fill(Rect, u32),
    Tint(Rect, u32, u32),
    Bevel(Rect, u32, bool),
    Text(Seq<char>, Ink),
    Bug(i32, i32, u8),
}

pub open spec fn op_view(o: Op) -> OpView {
    match o {
        Op::Clear(c) => OpView::Clear(c),
        Op::Fill(r, c) => OpView::Fill(r, c),
        Op::Tint(r, c, a) => OpView::Tint(r, c, a),
        Op::Bevel(r, t, b) => OpView::Bevel(r, t, b),
        Op::Text(s, i) => OpView::Text(s@, i),
        Op::Bug(x, y, a) => OpView::Bug(x, y, a),
    }
}

pub open spec fn op_views(v: Seq<Op>) -> Seq<OpView> {
    v.map_values(|o: Op| op_view(o))
}

pub(crate) fn put(out: &mut Vec<Op>, o: Op)
    ensures
        op_views(final(out)@) == op_views(old(out)@).push(op_view(o)),
{
    let ghost before = op_views(out@);
    out.push(o);
    assert(op_views(out@) =~= before.push(op_view(o)));
}

/// A step can be drawn into a window of `w` by `h` pixels.
pub open spec fn op_fits(o: OpView, w: int, h: int) -> bool {
    match o {
        OpView::Fill(r, c) => rect_fits(
            w * h,
            w,
            r.x0 as int,
            r.y0 as int,
            r.x1 as int,
            r.y1 as int,
        ),
        OpView::Tint(r, c, a) => a <= 255 && rect_fits(
            w * h,
            w,
            r.x0 as int,
            r.y0 as int,
            r.x1 as int,
            r.y1 as int,
        ),
        OpView::Bevel(r, t, b) => bevel_fits(
            w * h,
            w,
            r.x0 as int,
            r.y0 as int,
            r.x1 as int,
            r.y1 as int,
            t as int,
        ),
        _ => true,
    }
}

/// The window once a step without text or logo is drawn.
pub open spec fn painted(buf: Seq<u32>, w: int, o: OpView) -> Seq<u32> {
    match o {
        OpView::Clear(c) => Seq::new(buf.len(), |k: int| c),
        OpView::Fill(r, c) => filled(
            buf,
            w,
            r.x0 as int,
            r.y0 as int,
            r.x1 as int,
            r.y1 as int,
            c,
        ),
        OpView::Tint(r, c, a) => tinted(
            buf,
            w,
            r.x0 as int,
            r.y0 as int,
            r.x1 as int,
            r.y1 as int,
            c,
            a,
        ),
        OpView::Bevel(r, t, b) => beveled(
            buf,
            w,
            r.x0 as int,
            r.y0 as int,
            r.x1 as int,
            r.y1 as int,
            t as int,
            b,
        ),
        _ => buf,
    }
}

/// Draws a step that is neither text nor a logo; those are left to be drawn with their glyphs and
/// pixels.
pub fn paint(buf: &mut Vec<u32>, w: u32, h: u32, o: &Op)
    requires
        old(buf)@.len() == w * h,
        op_fits(op_view(*o), w as int, h as int),
    ensures
        final(buf)@ == painted(old(buf)@, w as int, op_view(*o)),
        final(buf)@.len() == old(buf)@.len(),
{
    match o {
        Op::Clear(c) => {
            let ghost start = buf@;
            let n: usize = buf.len();
            let mut k: usize = 0;
            while k < n
                invariant
                    k <= n == buf@.len() == start.len(),
                    forall|j: int| 0 <= j < k ==> #[trigger] buf@[j] == *c,
                decreases n - k,
            {
                buf.set(k, *c);
                k += 1;
            }
            assert(buf@ =~= Seq::new(start.len(), |k: int| *c));
        },
        Op::Fill(r, c) => fill_rect(buf, w, r.x0, r.y0, r.x1, r.y1, *c),
        Op::Tint(r, c, a) => tint_rect(buf, w, r.x0, r.y0, r.x1, r.y1, *c, *a),
        Op::Bevel(r, t, b) => bevel(buf, w, r.x0, r.y0, r.x1, r.y1, *t, *b),
        _ => {},
    }
}

/// A rectangle within the window.
pub open spec fn within(r: Rect, w: int, h: int) -> bool {
    r.x0 <= r.x1 <= w && r.y0 <= r.y1 <= h
}

/// Whether a rectangle lies within the window.
pub fn is_within(r: &Rect, w: u32, h: u32) -> (b: bool)
    ensures
        b == within(*r, w as int, h as int),
{
    r.x0 <= r.x1 && r.x1 <= w && r.y0 <= r.y1 && r.y1 <= h
}

/// A step whose rectangle lies within the window; a bevel is no thicker than it.
pub open spec fn op_within(o: OpView, w: int, h: int) -> bool {
    match o {
        OpView::Fill(r, c) => within(r, w, h),
        OpView::Tint(r, c, a) => within(r, w, h) && a <= 255,
        OpView::Bevel(r, t, b) => within(r, w, h) && t <= r.x1 - r.x0 && t <= r.y1 - r.y0,
        _ => true,
    }
}

proof fn lemma_within_fits(w: int, h: int, x0: int, y0: int, x1: int, y1: int)
    requires
        0 <= x0 <= x1 <= w,
        0 <= y0,
        y1 <= h,
    ensures
        rect_fits(w * h, w, x0, y0, x1, y1),
{
    if y0 < y1 {
        assert((y1 - 1) * w + x1 <= w * h) by (nonlinear_arith)
            requires
                y1 <= h,
                x1 <= w,
                0 <= w,
                0 < y1,
        ;
    }
}

/// What lies within the window can be drawn into it.
pub proof fn what_lies_within_fits(o: OpView, w: int, h: int)
    requires
        op_within(o, w, h),
        0 <= w <= u32::MAX,
        0 <= h <= u32::MAX,
    ensures
        op_fits(o, w, h),
{
    match o {
        OpView::Fill(r, c) => lemma_within_fits(
            w,
            h,
            r.x0 as int,
            r.y0 as int,
            r.x1 as int,
            r.y1 as int,
        ),
        OpView::Tint(r, c, a) => lemma_within_fits(
            w,
            h,
            r.x0 as int,
            r.y0 as int,
            r.x1 as int,
            r.y1 as int,
        ),
        OpView::Bevel(r, t, b) => {
            let (x0, y0, x1, y1, t) = (
                r.x0 as int,
                r.y0 as int,
                r.x1 as int,
                r.y1 as int,
                t as int,
            );
            lemma_within_fits(w, h, x0, y0, x1, y0 + t);
            lemma_within_fits(w, h, x0, y0, x0 + t, y1);
            lemma_within_fits(w, h, x0, y1 - t, x1, y1);
            lemma_within_fits(w, h, x1 - t, y0, x1, y1);
        },
        _ => {},
    }
}

/// Whether a step lies within the window.
pub fn is_op_within(o: &Op, w: u32, h: u32) -> (b: bool)
    ensures
        b == op_within(op_view(*o), w as int, h as int),
{
    match o {
        Op::Fill(r, c) => is_within(r, w, h),
        Op::Tint(r, c, a) => is_within(r, w, h) && *a <= 255,
        Op::Bevel(r, t, b) => is_within(r, w, h) && *t <= r.x1 - r.x0 && *t <= r.y1 - r.y0,
        _ => true,
    }
}

/// All steps of a list lie within the window.
pub open spec fn all_within(v: Seq<OpView>, w: int, h: int) -> bool {
    forall|i: int| 0 <= i < v.len() ==> op_within(#[trigger] v[i], w, h)
}

/// The overlay layout assumes a real window, not a sliver.
pub open spec fn roomy(w: int, h: int) -> bool {
    320 <= w && 200 <= h
}

/// The overlay layout assumes a real window, not a sliver.
pub fn is_roomy(w: u32, h: u32) -> (r: bool)
    ensures
        r == roomy(w as int, h as int),
{
    w >= 320 && h >= 200
}

/// A real window, in which places are numbers that a pixel's can be.
pub open spec fn drawable(w: int, h: int) -> bool {
    roomy(w, h) && w <= SIZE_MAX && h <= SIZE_MAX
}

/// Whether the overlay can be laid out in a window.
pub fn is_drawable(w: u32, h: u32) -> (r: bool)
    ensures
        r == drawable(w as int, h as int),
{
    is_roomy(w, h) && w <= SIZE_MAX && h <= SIZE_MAX
}

pub open spec fn opaque(color: u32) -> u32 {
    color | 0xFF00_0000
}

pub open spec fn rect(x0: int, y0: int, x1: int, y1: int) -> Rect {
    Rect { x0: x0 as u32, y0: y0 as u32, x1: x1 as u32, y1: y1 as u32 }
}

/// Text that is not clipped.
pub open spec fn ink(px: int, x: int, baseline: int, color: u32, right: bool) -> Ink {
    Ink {
        px: px as u32,
        x: x as i32,
        baseline: baseline as i32,
        color,
        right,
        top: 0,
        bottom: i32::MAX,
    }
}

pub(crate) fn unclipped(px: u32, x: i32, baseline: i32, color: u32, right: bool) -> (r: Ink)
    ensures
        r == ink(px as int, x as int, baseline as int, color, right),
{
    Ink { px, x, baseline, color, right, top: 0, bottom: i32::MAX }
}

} // verus!
