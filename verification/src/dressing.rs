//! What a channel puts over its own picture: a translucent network bug in a corner, a small
//! clock, a lower-third news crawl; and where the picture itself stands.

use vstd::prelude::*;
use crate::draw::{
    all_within, ink, op_views, put, rect, drawable, unclipped, Ink, Op, OpView, Rect, GUIDE_WHITE,
};
use crate::guide::{
    crawl, crawl_shift, draw_crawl, lemma_crawl_extends, lemma_crawl_fits, shift_of,
};
use crate::library::{cut, first_chars};
use crate::networks::ChanStyle;
use crate::num::{part, part_of};
use crate::settings::{Settings, SettingsView};
use crate::text::{
    blank_parts_are_left_out, nonblank, pieces, pieces_follow_each_other, split_nonblank, texts,
    the_last_piece_is_the_rest, to_uppercase, trimmed, uppercase,
};

verus! {

// ---------------------------------------------------------------- the news crawl

/// Headlines in a row, each with a star behind it.
pub open spec fn starred(items: Seq<Seq<char>>) -> Seq<char>
    decreases items.len(),
{
    if items.len() == 0 {
        Seq::empty()
    } else {
        starred(items.drop_last()) + items.last() + "   *   "@
    }
}

/// The text of the news crawl: the lines of `headlines` that are not blank. Without any there is
/// but a star.
pub open spec fn crawl_text(headlines: Seq<char>) -> Seq<char> {
    let items = nonblank(pieces(headlines, '\n'));
    if items.len() == 0 {
        "   *   "@
    } else {
        starred(items)
    }
}

/// The text of the news crawl.
pub fn crawl_line(headlines: &str) -> (r: String)
    ensures
        r@ == crawl_text(headlines@),
{
    let items = split_nonblank(headlines, '\n');
    let ghost all = texts(items@);
    assert(all.len() == items@.len());
    if items.len() == 0 {
        return "   *   ".to_owned();
    }
    let mut s = String::new();
    let mut i: usize = 0;
    assert(s@ =~= starred(all.take(0)));
    while i < items.len()
        invariant
            i <= items@.len(),
            all == texts(items@),
            s@ == starred(all.take(i as int)),
        decreases items@.len() - i,
    {
        proof {
            assert(all.take(i + 1).drop_last() =~= all.take(i as int));
            assert(all.take(i + 1).last() == items@[i as int]@);
        }
        s.append(items[i].as_str());
        s.append("   *   ");
        i += 1;
    }
    assert(all.take(all.len() as int) =~= all);
    s
}

/// " HBO NEWS "
pub open spec fn tag_text(net: Seq<char>) -> Seq<char> {
    " "@ + first_chars(uppercase(net), 10) + " NEWS "@
}

/// The tag box of the news crawl.
pub fn tag_line(net: &str) -> (r: String)
    ensures
        r@ == tag_text(net@),
{
    let up = to_uppercase(net);
    let mut s = " ".to_owned();
    let t = cut(up.as_str(), 10);
    s.append(t.as_str());
    s.append(" NEWS ");
    s
}

/// Crawl: coloured band, network tag box on the left, headlines scrolling through. The tag is
/// `tag_w` pixels wide, the headlines `tw` thousandths of a pixel.
pub open spec fn news_band(
    out: Seq<OpView>,
    color: u32,
    net: Seq<char>,
    msg: Seq<char>,
    tag_w: int,
    tw: int,
    now: int,
    w: int,
    h: int,
) -> Seq<OpView> {
    let y0 = part_of(h, 935);
    let px = part_of(h, 40);
    let b = y0 + part_of(h - y0, 740);
    let tag = tag_w + part_of(w, 10);
    let band = out.push(OpView::Tint(rect(0, y0, w, h), color, 0xE0)).push(
        OpView::Fill(rect(0, y0, w, y0 + 2), 0xFF_ff_ff_ff),
    );
    crawl(
        band,
        msg,
        Ink {
            px: px as u32,
            x: 0,
            baseline: b as i32,
            color: GUIDE_WHITE,
            right: false,
            top: y0 as i32,
            bottom: h as i32,
        },
        tag * 1000 - crawl_shift(now, w, 110, tw),
        tw,
        tag * 1000,
        w,
    ).push(OpView::Fill(rect(0, y0 + 2, tag, h), 0xFF_f0_e0_20)).push(
        OpView::Text(tag_text(net), ink(px, part_of(w, 5), b, 0x00_10_10_10, false)),
    )
}

fn draw_news(
    out: &mut Vec<Op>,
    color: u32,
    net: &str,
    msg: &str,
    tag_w: u32,
    tw: i64,
    now: i64,
    w: u32,
    h: u32,
)
    requires
        drawable(w as int, h as int),
        tag_w <= 0x1fff_ffff,
        0 < tw <= 0x7f_ffff_ffff,
        0 <= now,
    ensures
        op_views(final(out)@) == news_band(
            op_views(old(out)@),
            color,
            net@,
            msg@,
            tag_w as int,
            tw as int,
            now as int,
            w as int,
            h as int,
        ),
{
    let y0 = part(h, 935);
    let px = part(h, 40);
    let b = y0 as i32 + part(h - y0, 740) as i32;
    let tag: u32 = tag_w + part(w, 10);
    put(out, Op::Tint(Rect { x0: 0, y0, x1: w, y1: h }, color, 0xE0));
    put(out, Op::Fill(Rect { x0: 0, y0, x1: w, y1: y0 + 2 }, 0xFF_ff_ff_ff));
    let row = Ink {
        px,
        x: 0,
        baseline: b,
        color: GUIDE_WHITE,
        right: false,
        top: y0 as i32,
        bottom: h as i32,
    };
    let from: i64 = tag as i64 * 1000;
    let shift = shift_of(now, w, 110, tw);
    draw_crawl(out, msg, row, from - shift, tw, from, w);
    put(out, Op::Fill(Rect { x0: 0, y0: y0 + 2, x1: tag, y1: h }, 0xFF_f0_e0_20));
    put(
        out,
        Op::Text(tag_line(net), unclipped(px, part(w, 5) as i32, b, 0x00_10_10_10, false)),
    );
}

// ---------------------------------------------------------------- the network's bug

/// The size of a bug made of a `lw` by `lh` logo: nine hundredths of the window's height, at most
/// a fifth of its width.
pub open spec fn bug_size(lw: int, lh: int, w: int, h: int) -> (int, int) {
    let th = part_of(h, 90);
    let fit = lw * th / (if lh == 0 {
        1
    } else {
        lh
    });
    let narrow = if fit > part_of(w, 200) {
        part_of(w, 200)
    } else {
        fit
    };
    let tw = if narrow < 1 {
        1
    } else {
        narrow
    };
    let th2 = lh * tw / (if lw == 0 {
        1
    } else {
        lw
    });
    (
        tw,
        if th2 < 1 {
            1
        } else {
            th2
        },
    )
}

/// The size of a bug made of a `lw` by `lh` logo; None where that is no size at all.
pub fn size_bug(lw: u32, lh: u32, w: u32, h: u32) -> (r: Option<(u32, u32)>)
    ensures
        ({
            let (tw, th) = bug_size(lw as int, lh as int, w as int, h as int);
            match r {
                Some(s) => (s.0 as int, s.1 as int) == (tw, th) && tw * th * 4 <= u32::MAX,
                None => tw * th * 4 > u32::MAX,
            }
        }),
{
    let th = part(h, 90);
    let d: u64 = if lh == 0 { 1 } else { lh as u64 };
    proof {
        assert(0 <= lw * th <= 0xffff_ffff * 0xffff_ffff) by (nonlinear_arith)
            requires
                0 <= lw <= 0xffff_ffff,
                0 <= th <= 0xffff_ffff,
        ;
    }
    let fit: u64 = lw as u64 * th as u64 / d;
    let most: u64 = part(w, 200) as u64;
    let narrow: u64 = if fit > most { most } else { fit };
    let tw: u64 = if narrow < 1 { 1 } else { narrow };
    let e: u64 = if lw == 0 { 1 } else { lw as u64 };
    proof {
        assert(0 <= lh * tw <= 0xffff_ffff * 0xffff_ffff) by (nonlinear_arith)
            requires
                0 <= lh <= 0xffff_ffff,
                0 <= tw <= 0xffff_ffff,
        ;
        vstd::arithmetic::div_mod::lemma_div_is_ordered_by_denominator(lh * tw, 1, e as int);
    }
    let tall: u64 = lh as u64 * tw / e;
    let th2: u64 = if tall < 1 { 1 } else { tall };
    proof {
        assert(0 <= tw * th2 <= 0xffff_ffff * 0xffff_ffff_ffff_ffff) by (nonlinear_arith)
            requires
                0 <= tw <= 0xffff_ffff,
                0 <= th2 <= 0xffff_ffff_ffff_ffff,
        ;
        assert(tw * th2 >= th2) by (nonlinear_arith)
            requires
                tw >= 1,
                th2 >= 0,
        ;
    }
    if tw as u128 * th2 as u128 * 4 > u32::MAX as u128 {
        None
    } else {
        Some((tw as u32, th2 as u32))
    }
}

/// Where a bug of `lw` by `lh` pixels stands: 1 bottom right, 2 bottom left, else top left, below
/// the clock where there is one.
pub open spec fn bug_place(
    bug: u8,
    lw: int,
    lh: int,
    clock: bool,
    w: int,
    h: int,
) -> (int, int) {
    let mx = part_of(w, 50);
    let my = part_of(h, 70);
    if bug == 1 {
        (w - mx - lw, h - my - lh)
    } else if bug == 2 {
        (mx, h - my - lh)
    } else {
        (
            mx,
            my + (if clock {
                part_of(h, 70)
            } else {
                0
            }),
        )
    }
}

fn place_bug(bug: u8, lw: u32, lh: u32, clock: bool, w: u32, h: u32) -> (r: (i32, i32))
    requires
        drawable(w as int, h as int),
        lw <= 0x3fff_ffff,
        lh <= 0x3fff_ffff,
    ensures
        (r.0 as int, r.1 as int) == bug_place(
            bug,
            lw as int,
            lh as int,
            clock,
            w as int,
            h as int,
        ),
{
    let mx = part(w, 50) as i32;
    let my = part(h, 70) as i32;
    if bug == 1 {
        (w as i32 - mx - lw as i32, h as i32 - my - lh as i32)
    } else if bug == 2 {
        (mx, h as i32 - my - lh as i32)
    } else {
        (mx, my + if clock { part(h, 70) as i32 } else { 0 })
    }
}

// ---------------------------------------------------------------- all of it

/// What a channel puts over its own picture, as far as the settings and its style let it: the news
/// crawl, the clock's text, and a bug of the given size.
pub open spec fn dressed(
    out: Seq<OpView>,
    s: SettingsView,
    st: ChanStyle,
    net: Seq<char>,
    msg: Seq<char>,
    tag_w: int,
    tw: int,
    now: int,
    clock: Option<Seq<char>>,
    logo: Option<(u32, u32)>,
    w: int,
    h: int,
) -> Seq<OpView> {
    let a = if s.ticker && st.ticker {
        news_band(out, st.ticker_color, net, msg, tag_w, tw, now, w, h)
    } else {
        out
    };
    let px = part_of(h, 45);
    let corner = if s.clocks && st.clock {
        clock
    } else {
        None
    };
    let b = match corner {
        Some(t) => a.push(
            OpView::Text(t, ink(px, part_of(w, 40), part_of(h, 50) + px, GUIDE_WHITE, false)),
        ),
        None => a,
    };
    match logo {
        Some(l) => if s.logos && st.bug > 0 {
            let (x, y) = bug_place(st.bug, l.0 as int, l.1 as int, corner is Some, w, h);
            b.push(OpView::Bug(x as i32, y as i32, st.bug_alpha))
        } else {
            b
        },
        None => b,
    }
}

pub open spec fn opt_text(o: Option<String>) -> Option<Seq<char>> {
    match o {
        Some(t) => Some(t@),
        None => None,
    }
}

/// What a channel puts over its own picture: a translucent network bug in a corner, a small clock,
/// and/or a lower-third news crawl. Which ones is fixed per channel (its style). `clock` is the
/// clock's text at the times when a clock shows, `logo` the size of the scaled logo where the
/// network has one.
pub fn draw_dressing(
    out: &mut Vec<Op>,
    s: &Settings,
    st: &ChanStyle,
    net: &str,
    msg: &str,
    tag_w: u32,
    tw: i64,
    now: i64,
    clock: Option<String>,
    logo: Option<(u32, u32)>,
    w: u32,
    h: u32,
)
    requires
        drawable(w as int, h as int),
        tag_w <= 0x1fff_ffff,
        0 < tw <= 0x7f_ffff_ffff,
        0 <= now,
        logo matches Some(l) ==> l.0 <= 0x3fff_ffff && l.1 <= 0x3fff_ffff,
    ensures
        op_views(final(out)@) == dressed(
            op_views(old(out)@),
            s@,
            *st,
            net@,
            msg@,
            tag_w as int,
            tw as int,
            now as int,
            opt_text(clock),
            logo,
            w as int,
            h as int,
        ),
{
    if s.ticker && st.ticker {
        draw_news(out, st.ticker_color, net, msg, tag_w, tw, now, w, h);
    }
    let corner = if s.clocks && st.clock {
        clock
    } else {
        None
    };
    let with_clock = corner.is_some();
    if let Some(t) = corner {
        let px = part(h, 45);
        let cy = part(h, 50) as i32 + px as i32;
        put(out, Op::Text(t, unclipped(px, part(w, 40) as i32, cy, GUIDE_WHITE, false)));
    }
    if let Some(l) = logo {
        if s.logos && st.bug > 0 {
            let (x, y) = place_bug(st.bug, l.0, l.1, with_clock, w, h);
            put(out, Op::Bug(x, y, st.bug_alpha));
        }
    }
}

/// The dressing keeps within the window when the news tag does.
pub proof fn the_dressing_fits(
    out: Seq<OpView>,
    s: SettingsView,
    st: ChanStyle,
    net: Seq<char>,
    msg: Seq<char>,
    tag_w: int,
    tw: int,
    now: int,
    clock: Option<Seq<char>>,
    logo: Option<(u32, u32)>,
    w: int,
    h: int,
)
    requires
        drawable(w, h),
        0 <= tag_w,
        tag_w + part_of(w, 10) <= w,
        all_within(out, w, h),
    ensures
        all_within(dressed(out, s, st, net, msg, tag_w, tw, now, clock, logo, w, h), w, h),
{
    let y0 = part_of(h, 935);
    let px = part_of(h, 40);
    let b = y0 + part_of(h - y0, 740);
    let tag = tag_w + part_of(w, 10);
    let band = out.push(OpView::Tint(rect(0, y0, w, h), st.ticker_color, 0xE0)).push(
        OpView::Fill(rect(0, y0, w, y0 + 2), 0xFF_ff_ff_ff),
    );
    assert(all_within(band, w, h));
    lemma_crawl_fits(
        band,
        msg,
        Ink {
            px: px as u32,
            x: 0,
            baseline: b as i32,
            color: GUIDE_WHITE,
            right: false,
            top: y0 as i32,
            bottom: h as i32,
        },
        tag * 1000 - crawl_shift(now, w, 110, tw),
        tw,
        tag * 1000,
        w,
        h,
    );
}

// ---------------------------------------------------------------- what stands where

/// A channel shows what its style has and the settings allow, each apart from the others: with
/// nothing of it there is nothing, the bug comes last and on top of the rest, and the clock is the
/// text that it is given.
pub proof fn the_dressing_is_what_is_allowed(
    out: Seq<OpView>,
    s: SettingsView,
    st: ChanStyle,
    net: Seq<char>,
    msg: Seq<char>,
    tag_w: int,
    tw: int,
    now: int,
    clock: Option<Seq<char>>,
    logo: Option<(u32, u32)>,
    w: int,
    h: int,
)
    ensures
        ({
            let d = dressed(out, s, st, net, msg, tag_w, tw, now, clock, logo, w, h);
            let ticker = s.ticker && st.ticker;
            let corner = s.clocks && st.clock && clock is Some;
            let bug = s.logos && st.bug > 0 && logo is Some;
            let no_logos = SettingsView { logos: false, ..s };
            let plain = dressed(out, no_logos, st, net, msg, tag_w, tw, now, clock, logo, w, h);
            &&& !ticker && !corner && !bug ==> d == out
            &&& bug ==> d.len() == plain.len() + 1 && d.drop_last() == plain && (
            d.last() matches OpView::Bug(x, y, alpha) && alpha == st.bug_alpha)
            &&& !bug ==> d == plain
            &&& corner && !bug ==> (d.last() matches OpView::Text(t, a) && t == clock->0)
            &&& corner && !bug && !ticker ==> d.drop_last() == out
            &&& ticker && !corner && !bug ==> (d.last() matches OpView::Text(t, a) && t == " "@
                + first_chars(uppercase(net), 10) + " NEWS "@)
            &&& ticker ==> d.len() >= out.len() + 4 && d[out.len() as int] == OpView::Tint(
                rect(0, part_of(h, 935), w, h),
                st.ticker_color,
                0xE0,
            )
        }),
{
    let no_logos = SettingsView { logos: false, ..s };
    let plain = dressed(out, no_logos, st, net, msg, tag_w, tw, now, clock, logo, w, h);
    let d = dressed(out, s, st, net, msg, tag_w, tw, now, clock, logo, w, h);
    if s.logos && st.bug > 0 && logo is Some {
        assert(d.drop_last() =~= plain);
    }
    if s.clocks && st.clock && clock is Some && !(s.ticker && st.ticker) && !(s.logos && st.bug > 0
        && logo is Some) {
        assert(d.drop_last() =~= out);
    }
    if s.ticker && st.ticker {
        let y0 = part_of(h, 935);
        let tag = tag_w + part_of(w, 10);
        let band = out.push(OpView::Tint(rect(0, y0, w, h), st.ticker_color, 0xE0)).push(
            OpView::Fill(rect(0, y0, w, y0 + 2), 0xFF_ff_ff_ff),
        );
        lemma_crawl_extends(
            band,
            msg,
            Ink {
                px: part_of(h, 40) as u32,
                x: 0,
                baseline: (y0 + part_of(h - y0, 740)) as i32,
                color: GUIDE_WHITE,
                right: false,
                top: y0 as i32,
                bottom: h as i32,
            },
            tag * 1000 - crawl_shift(now, w, 110, tw),
            tw,
            tag * 1000,
            w,
        );
        let news = news_band(out, st.ticker_color, net, msg, tag_w, tw, now, w, h);
        assert(news[out.len() as int] == band[out.len() as int]);
    }
}

/// A bug keeps the same distance from the edges of its corner in all of them: as far from the right
/// as from the left, the two at the bottom at one height, the two at the left in one column; under
/// the clock the one at the top moves down.
pub proof fn bugs_stand_in_their_corners(lw: int, lh: int, clock: bool, w: int, h: int)
    requires
        drawable(w, h),
        0 <= lw,
        0 <= lh,
    ensures
        ({
            let (rx, ry) = bug_place(1, lw, lh, clock, w, h);
            let (lx, ly) = bug_place(2, lw, lh, clock, w, h);
            let (tx, ty) = bug_place(3, lw, lh, clock, w, h);
            &&& w - (rx + lw) == lx && lx > 0
            &&& ry == ly && tx == lx
            &&& h - (ly + lh) == bug_place(3, lw, lh, false, w, h).1
            &&& clock ==> ty > bug_place(3, lw, lh, false, w, h).1
        }),
{
}

/// A bug keeps the shape of its logo, and is no wider than a fifth of the window.
pub proof fn bugs_keep_their_shape(lw: int, lh: int, w: int, h: int)
    requires
        1 <= lw,
        1 <= lh,
        drawable(w, h),
    ensures
        ({
            let (tw, th) = bug_size(lw, lh, w, h);
            &&& 1 <= tw && 1 <= th
            &&& tw * 5 <= w
            &&& th > 1 ==> th * lw <= lh * tw < (th + 1) * lw
            &&& tw > 1 ==> tw * lh <= lw * part_of(h, 90)
        }),
{
    let (tw, th) = bug_size(lw, lh, w, h);
    let top = part_of(h, 90);
    let x = lw * top;
    vstd::arithmetic::div_mod::lemma_fundamental_div_mod(x, lh);
    vstd::arithmetic::div_mod::lemma_mod_bound(x, lh);
    let q = x / lh;
    if tw > 1 {
        assert(tw <= q);
        assert(tw * lh <= x) by (nonlinear_arith)
            requires
                x == lh * q + x % lh,
                0 <= x % lh,
                tw <= q,
                lh >= 1,
        ;
    }
    let y = lh * tw;
    vstd::arithmetic::div_mod::lemma_fundamental_div_mod(y, lw);
    vstd::arithmetic::div_mod::lemma_mod_bound(y, lw);
    let p = y / lw;
    if th > 1 {
        assert(p * lw <= y < (p + 1) * lw) by (nonlinear_arith)
            requires
                y == lw * p + y % lw,
                0 <= y % lw < lw,
        ;
    }
}

/// Headlines follow each other, each with a star behind it.
pub proof fn headlines_follow_each_other(a: Seq<Seq<char>>, b: Seq<Seq<char>>, x: Seq<char>)
    ensures
        starred(a + b) == starred(a) + starred(b),
        starred(seq![x]) == x + "   *   "@,
    decreases b.len(),
{
    reveal_with_fuel(starred, 2);
    assert(seq![x].drop_last() =~= Seq::empty());
    assert(Seq::<char>::empty() + x =~= x);
    if b.len() > 0 {
        headlines_follow_each_other(a, b.drop_last(), x);
        assert((a + b).drop_last() =~= a + b.drop_last());
        assert((a + b).last() == b.last());
        assert(starred(a + b) =~= starred(a) + starred(b));
    } else {
        assert(a + b =~= a);
        assert(starred(a) + starred(b) =~= starred(a));
    }
}

/// The crawl has every headline that is not blank, in their order, each with a star behind it: a line
/// by itself is shown without the white space around it, two parts of the news follow each other,
/// and where one of them has nothing to say the other is all that is shown.
pub proof fn every_headline_crawls_by(a: Seq<char>, b: Seq<char>, x: Seq<char>)
    requires
        !x.contains('\n'),
    ensures
        trimmed(x).len() > 0 ==> crawl_text(x) == trimmed(x) + "   *   "@,
        trimmed(x).len() == 0 ==> crawl_text(x) == "   *   "@,
        trimmed(x).len() > 0 && nonblank(pieces(a, '\n')).len() > 0 ==> crawl_text(a.push('\n') + x)
            == crawl_text(a) + crawl_text(x),
        trimmed(x).len() == 0 ==> crawl_text(a.push('\n') + x) == crawl_text(a),
        nonblank(pieces(a, '\n')).len() > 0 && nonblank(pieces(b, '\n')).len() > 0 ==> crawl_text(
            a.push('\n') + b,
        ) == crawl_text(a) + crawl_text(b),
{
    let (p, q) = (pieces(a, '\n'), pieces(b, '\n'));
    the_last_piece_is_the_rest(x, x, '\n');
    pieces_follow_each_other(a, x, '\n');
    pieces_follow_each_other(a, b, '\n');
    blank_parts_are_left_out(p, seq![x], x);
    blank_parts_are_left_out(p, q, x);
    headlines_follow_each_other(nonblank(p), nonblank(seq![x]), trimmed(x));
    headlines_follow_each_other(nonblank(p), nonblank(q), trimmed(x));
    if trimmed(x).len() == 0 {
        assert(nonblank(p) + nonblank(seq![x]) =~= nonblank(p));
    }
}

} // verus!
