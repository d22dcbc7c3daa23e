//! The screens of the set and of the cable box: channel number, banner, volume, legend, set up
//! menu and loading screen.

use vstd::prelude::*;
use vstd::utf8::encode_utf8;
use crate::draw::{
    all_within, ink, op_views, opaque, put, rect, drawable, unclipped, Op, OpView, Rect, GUIDE_BLUE,
    GUIDE_DARK, GUIDE_GRAY, GUIDE_WHITE, GUIDE_YELLOW,
};
use crate::library::{begins_with, cut, cutting_keeps_the_beginning, first_chars};
use crate::num::{part, part_of};
use crate::settings::{
    menu_label, menu_restart, menu_text, needs_restart, Settings, SettingsView, MENU_LEN, MENU_ZIP,
};
use crate::station::ChanInfo;
use crate::text::{
    all_digits, byte_len, decimal, decimal_padded, digits_value, padded_decimals_read_back,
    push_decimal, push_padded, to_uppercase, uppercase,
};
use crate::tv::VOL_MAX;

verus! {

// ---------------------------------------------------------------- texts

/// A span of time as minutes and seconds, with hours where there are any. Longer than a signed
/// 64-bit number of seconds nothing lasts.
pub open spec fn time_left(left: int) -> Seq<char> {
    let t = left / 1_000_000;
    let s = if t > i64::MAX {
        i64::MAX as int
    } else {
        t
    };
    if s >= 3600 {
        decimal((s / 3600) as nat) + seq![':'] + decimal_padded((s / 60 % 60) as nat, 2) + seq![
            ':',
        ] + decimal_padded((s % 60) as nat, 2)
    } else {
        decimal((s / 60) as nat) + seq![':'] + decimal_padded((s % 60) as nat, 2)
    }
}

/// A span of microseconds as minutes and seconds, with hours where there are any.
pub fn fmt_left(left: u128) -> (r: String)
    ensures
        r@ == time_left(left as int),
{
    let t: u128 = left / 1_000_000;
    let s: u64 = if t > i64::MAX as u128 { i64::MAX as u64 } else { t as u64 };
    let mut out = String::new();
    assert(out@ =~= Seq::empty());
    if s >= 3600 {
        push_decimal(&mut out, s / 3600);
        assert(out@ =~= decimal((s / 3600) as nat));
        out.push(':');
        push_padded(&mut out, s / 60 % 60, 2);
        out.push(':');
        push_padded(&mut out, s % 60, 2);
    } else {
        push_decimal(&mut out, s / 60);
        assert(out@ =~= decimal((s / 60) as nat));
        out.push(':');
        push_padded(&mut out, s % 60, 2);
    }
    assert(out@ =~= time_left(left as int));
    out
}

/// `head` and then the first `n` characters of `s`.
pub open spec fn headed(head: Seq<char>, s: Seq<char>, n: nat) -> Seq<char> {
    head + first_chars(s, n)
}

pub(crate) fn head_cut(head: &str, s: &str, n: usize) -> (r: String)
    ensures
        r@ == headed(head@, s@, n as nat),
{
    let mut out = head.to_owned();
    let t = cut(s, n);
    out.append(t.as_str());
    out
}

/// "... LEFT"
pub open spec fn left_text(left: int) -> Seq<char> {
    time_left(left) + " LEFT"@
}

pub(crate) fn left_line(left: u128) -> (r: String)
    ensures
        r@ == left_text(left as int),
{
    let mut s = fmt_left(left);
    s.append(" LEFT");
    s
}

/// `n` dashes.
pub open spec fn dashes(n: nat) -> Seq<char> {
    Seq::new(n, |i: int| '-')
}

/// Text filled up to `width` with dashes; it is `len` long already.
pub open spec fn dashed(s: Seq<char>, len: nat, width: nat) -> Seq<char> {
    s + dashes(
        (if len < width {
            width - len
        } else {
            0
        }) as nat,
    )
}

fn with_dashes(s: &str, len: usize, width: usize) -> (r: String)
    ensures
        r@ == dashed(s@, len as nat, width as nat),
{
    let mut out = s.to_owned();
    let n: usize = if len < width { width - len } else { 0 };
    let mut i: usize = 0;
    assert(out@ =~= s@ + dashes(0));
    while i < n
        invariant
            i <= n,
            out@ == s@ + dashes(i as nat),
        decreases n - i,
    {
        out.push('-');
        assert(out@ =~= s@ + dashes((i + 1) as nat));
        i += 1;
    }
    out
}

// ---------------------------------------------------------------- channel number

/// The channel number, or the digits typed so far with a dash for each still to come.
pub open spec fn number_text(cur: int, entry: Seq<char>, nd: nat) -> Seq<char> {
    if entry.len() == 0 {
        decimal_padded(cur as nat, nd)
    } else {
        dashed(entry, encode_utf8(entry).len(), nd)
    }
}

pub open spec fn number_screen(
    out: Seq<OpView>,
    cur: int,
    entry: Seq<char>,
    nd: nat,
    hud: u32,
    w: int,
    h: int,
) -> Seq<OpView> {
    let px = part_of(h, 110);
    out.push(
        OpView::Text(
            number_text(cur, entry, nd),
            ink(px, part_of(w, 940), part_of(h, 70) + px, hud, true),
        ),
    )
}

/// Big channel number, top right: the TV set's own OSD.
pub fn draw_number(out: &mut Vec<Op>, cur: usize, entry: &str, nd: usize, hud: u32, w: u32, h: u32)
    requires
        drawable(w as int, h as int),
    ensures
        op_views(final(out)@) == number_screen(
            op_views(old(out)@),
            cur as int,
            entry@,
            nd as nat,
            hud,
            w as int,
            h as int,
        ),
{
    let px = part(h, 110);
    let text = if entry.is_empty() {
        let mut s = String::new();
        push_padded(&mut s, cur as u64, nd);
        assert(s@ =~= decimal_padded(cur as nat, nd as nat));
        s
    } else {
        with_dashes(entry, byte_len(entry), nd)
    };
    let right = part(w, 940) as i32;
    let baseline = part(h, 70) as i32 + px as i32;
    put(out, Op::Text(text, unclipped(px, right, baseline, hud, true)));
}

// ---------------------------------------------------------------- info banner

/// "07 HBO"
pub open spec fn banner_head(ch: int, net: Seq<char>) -> Seq<char> {
    decimal_padded(ch as nat, 2).push(' ') + first_chars(net, 12)
}

/// The banner's heading: channel number and network.
pub fn banner_heading(ch: usize, net: &str) -> (r: String)
    ensures
        r@ == banner_head(ch as int, net@),
{
    let mut s = String::new();
    push_padded(&mut s, ch as u64, 2);
    assert(s@ =~= decimal_padded(ch as nat, 2));
    s.push(' ');
    let t = cut(net, 12);
    s.append(t.as_str());
    s
}

/// How far the green of the progress bar reaches, of `room` pixels.
pub open spec fn bar_reach(room: int, done: int, of: int) -> int {
    room * done / of
}

pub open spec fn banner_screen(
    out: Seq<OpView>,
    ch: int,
    i: ChanInfo,
    clock: Seq<char>,
    head_w: int,
    hud: u32,
    w: int,
    h: int,
) -> Seq<OpView> {
    let (x0, y0, x1, y1) = (part_of(w, 40), part_of(h, 790), part_of(w, 960), part_of(h, 940));
    let px = part_of(h, 50);
    let small = part_of(h, 36);
    let lx = x0 + part_of(w, 20);
    let rx = x1 - part_of(w, 20);
    let b1 = y0 + part_of(h, 62);
    let b2 = y0 + part_of(h, 108);
    let by0 = y1 - part_of(h, 28);
    let by1 = y1 - part_of(h, 14);
    let box_ = out.push(OpView::Tint(rect(x0, y0, x1, y1), GUIDE_BLUE, 0xD0)).push(
        OpView::Bevel(rect(x0, y0, x1, y1), 3, true),
    );
    let lines = box_.push(
        OpView::Text(banner_head(ch, i.net@), ink(px, lx, b1, GUIDE_YELLOW, false)),
    ).push(
        OpView::Text(
            first_chars(i.now@, 26),
            ink(px, lx + head_w + part_of(w, 25), b1, GUIDE_WHITE, false),
        ),
    ).push(
        OpView::Text(headed("NEXT  "@, i.next@, 30), ink(small, lx, b2, GUIDE_GRAY, false)),
    ).push(OpView::Text(clock, ink(px, rx, b1, GUIDE_WHITE, true)));
    let timed = if i.left > 0 {
        lines.push(
            OpView::Text(left_text(i.left as int), ink(small, rx, b2, GUIDE_GRAY, true)),
        )
    } else {
        lines
    };
    // Progress through the program: sunken track, green fill.
    timed.push(OpView::Fill(rect(lx, by0, rx, by1), opaque(GUIDE_DARK))).push(
        OpView::Bevel(rect(lx, by0, rx, by1), 1, false),
    ).push(
        OpView::Fill(
            rect(
                lx + 1,
                by0 + 1,
                lx + 1 + bar_reach(rx - lx - 2, i.done as int, i.of as int),
                by1 - 1,
            ),
            opaque(hud),
        ),
    )
}

fn bar_length(room: u32, done: u64, of: u64) -> (r: u32)
    requires
        0 < of,
        done <= of,
    ensures
        r == bar_reach(room as int, done as int, of as int),
        r <= room,
{
    proof {
        assert(room * done <= room * of) by (nonlinear_arith)
            requires
                done <= of,
                0 <= room,
        ;
        assert(0 <= room * done) by (nonlinear_arith)
            requires
                0 <= done,
                0 <= room,
        ;
        assert(room * of <= 0xffff_ffff * 0xffff_ffff_ffff_ffff) by (nonlinear_arith)
            requires
                0 <= room <= 0xffff_ffff,
                0 <= of <= 0xffff_ffff_ffff_ffff,
        ;
        vstd::arithmetic::div_mod::lemma_div_is_ordered(room * done, room * of, of as int);
        vstd::arithmetic::div_mod::lemma_div_multiples_vanish(room as int, of as int);
        assert(of * room == room * of) by (nonlinear_arith);
        vstd::arithmetic::div_mod::lemma_div_pos_is_pos(room * done, of as int);
    }
    (room as u128 * done as u128 / of as u128) as u32
}

/// Cable-box info banner along the bottom: channel + network, what's on, what's next, how far in,
/// and the clock. Translucent navy with a raised bevel. `head_w` is the width of its heading.
pub fn draw_banner(
    out: &mut Vec<Op>,
    ch: usize,
    i: &ChanInfo,
    clock: String,
    head_w: i32,
    hud: u32,
    w: u32,
    h: u32,
)
    requires
        drawable(w as int, h as int),
        0 <= head_w <= 0x1fff_ffff,
        0 < i.of,
        i.done <= i.of,
    ensures
        op_views(final(out)@) == banner_screen(
            op_views(old(out)@),
            ch as int,
            *i,
            clock@,
            head_w as int,
            hud,
            w as int,
            h as int,
        ),
{
    let (x0, y0, x1, y1) = (part(w, 40), part(h, 790), part(w, 960), part(h, 940));
    let r = Rect { x0, y0, x1, y1 };
    put(out, Op::Tint(r, GUIDE_BLUE, 0xD0));
    put(out, Op::Bevel(r, 3, true));
    let px = part(h, 50);
    let small = part(h, 36);
    let lx = x0 + part(w, 20);
    let rx = x1 - part(w, 20);
    let b1 = y0 as i32 + part(h, 62) as i32;
    let b2 = y0 as i32 + part(h, 108) as i32;
    put(
        out,
        Op::Text(
            banner_heading(ch, i.net.as_str()),
            unclipped(px, lx as i32, b1, GUIDE_YELLOW, false),
        ),
    );
    let nx = lx as i32 + head_w + part(w, 25) as i32;
    put(out, Op::Text(cut(i.now.as_str(), 26), unclipped(px, nx, b1, GUIDE_WHITE, false)));
    put(
        out,
        Op::Text(
            head_cut("NEXT  ", i.next.as_str(), 30),
            unclipped(small, lx as i32, b2, GUIDE_GRAY, false),
        ),
    );
    put(out, Op::Text(clock, unclipped(px, rx as i32, b1, GUIDE_WHITE, true)));
    if i.left > 0 {
        put(out, Op::Text(left_line(i.left), unclipped(small, rx as i32, b2, GUIDE_GRAY, true)));
    }
    let by0 = y1 - part(h, 28);
    let by1 = y1 - part(h, 14);
    let bar = Rect { x0: lx, y0: by0, x1: rx, y1: by1 };
    put(out, Op::Fill(bar, GUIDE_DARK | 0xFF00_0000));
    put(out, Op::Bevel(bar, 1, false));
    let reach = bar_length(rx - lx - 2, i.done, i.of);
    put(
        out,
        Op::Fill(
            Rect { x0: lx + 1, y0: by0 + 1, x1: lx + 1 + reach, y1: by1 - 1 },
            hud | 0xFF00_0000,
        ),
    );
}

/// The banner keeps within the window.
pub proof fn the_banner_fits(
    out: Seq<OpView>,
    ch: int,
    i: ChanInfo,
    clock: Seq<char>,
    head_w: int,
    hud: u32,
    w: int,
    h: int,
)
    requires
        drawable(w, h),
        0 < i.of,
        i.done <= i.of,
        all_within(out, w, h),
    ensures
        all_within(banner_screen(out, ch, i, clock, head_w, hud, w, h), w, h),
{
    let room = part_of(w, 960) - part_of(w, 20) - (part_of(w, 40) + part_of(w, 20)) - 2;
    let (done, of) = (i.done as int, i.of as int);
    assert(0 <= room * done <= room * of) by (nonlinear_arith)
        requires
            0 <= done <= of,
            0 <= room,
    ;
    vstd::arithmetic::div_mod::lemma_div_is_ordered(room * done, room * of, of);
    vstd::arithmetic::div_mod::lemma_div_multiples_vanish(room, of);
    assert(of * room == room * of) by (nonlinear_arith);
    vstd::arithmetic::div_mod::lemma_div_pos_is_pos(room * done, of);
    assert(0 <= bar_reach(room, done, of) <= room);
}

// ---------------------------------------------------------------- volume

/// The left edge of volume segment `i`.
pub open spec fn segment_x(sx: int, seg_w: int, i: int) -> int {
    sx + i * (seg_w + segment_gap(seg_w))
}

pub open spec fn segment_gap(seg_w: int) -> int {
    if seg_w / 4 < 2 {
        2
    } else {
        seg_w / 4
    }
}

/// How far a shadow of text `px` high is set off.
pub open spec fn set_off(px: int) -> int {
    crate::raster::shadow_of(px)
}

/// One segment of the bar with its shadow: filled, or just an outline.
pub open spec fn segment(
    out: Seq<OpView>,
    ax: int,
    seg_w: int,
    sy0: int,
    sy1: int,
    shadow: int,
    on: bool,
    hud: u32,
) -> Seq<OpView> {
    let lit = out.push(
        OpView::Fill(
            rect(ax + shadow, sy0 + shadow, ax + seg_w + shadow, sy1 + shadow),
            0xFF00_0000,
        ),
    ).push(OpView::Fill(rect(ax, sy0, ax + seg_w, sy1), opaque(hud)));
    if on {
        lit
    } else {
        lit.push(OpView::Fill(rect(ax + 2, sy0 + 2, ax + seg_w - 2, sy1 - 2), 0))
    }
}

/// The segments from `i` on: one per step, as far as the window is wide.
pub open spec fn segments(
    out: Seq<OpView>,
    sx: int,
    seg_w: int,
    sy0: int,
    sy1: int,
    shadow: int,
    volume: int,
    hud: u32,
    w: int,
    i: int,
) -> Seq<OpView>
    decreases VOL_MAX - i,
{
    let ax = segment_x(sx, seg_w, i);
    if i >= VOL_MAX || ax + seg_w + shadow >= w {
        out
    } else {
        segments(
            segment(out, ax, seg_w, sy0, sy1, shadow, i < volume, hud),
            sx,
            seg_w,
            sy0,
            sy1,
            shadow,
            volume,
            hud,
            w,
            i + 1,
        )
    }
}

pub open spec fn volume_screen(
    out: Seq<OpView>,
    volume: int,
    muted: bool,
    label_w: int,
    hud: u32,
    w: int,
    h: int,
) -> Seq<OpView> {
    let px = part_of(h, 60);
    let x = part_of(w, 60);
    let base = part_of(h, 720) + px;
    let label = out.push(
        OpView::Text(
            if muted {
                "MUTE"@
            } else {
                "VOLUME"@
            },
            ink(px, x, base, hud, false),
        ),
    );
    segments(
        label,
        x + label_w,
        part_of(w, 22),
        base - part_of(px, 620),
        base,
        set_off(px),
        if muted {
            0
        } else {
            volume
        },
        hud,
        w,
        0,
    )
}

/// TV-set volume OSD: "VOLUME" and a row of segments, one per step. `label_w` is the width of the
/// label and the gap behind it.
pub fn draw_volume(
    out: &mut Vec<Op>,
    volume: u32,
    muted: bool,
    label_w: i32,
    hud: u32,
    w: u32,
    h: u32,
)
    requires
        drawable(w as int, h as int),
        0 <= label_w <= 0x1fff_ffff,
    ensures
        op_views(final(out)@) == volume_screen(
            op_views(old(out)@),
            volume as int,
            muted,
            label_w as int,
            hud,
            w as int,
            h as int,
        ),
{
    let px = part(h, 60);
    let x = part(w, 60);
    let base = part(h, 720) + px;
    let label = if muted { "MUTE".to_owned() } else { "VOLUME".to_owned() };
    put(out, Op::Text(label, unclipped(px, x as i32, base as i32, hud, false)));
    let ghost start = op_views(out@);
    let vol: u32 = if muted { 0 } else { volume };
    let sx: u32 = x + label_w as u32;
    let seg_w = part(w, 22);
    let gap: u32 = if seg_w / 4 < 2 { 2 } else { seg_w / 4 };
    let sy0 = base - part(px, 620);
    let sy1 = base;
    let shadow: u32 = if px / 14 < 2 { 2 } else { px / 14 };
    let ghost (gx, gw, g0, g1, gs) = (
        sx as int,
        seg_w as int,
        sy0 as int,
        sy1 as int,
        shadow as int,
    );
    let mut i: u32 = 0;
    let mut more = true;
    while more && i < VOL_MAX
        invariant
            i <= VOL_MAX,
            !more ==> segment_x(gx, gw, i as int) + gw + gs >= w,
            4 <= sy1,
            w <= 0x3fff_ffff,
            7 <= seg_w,
            seg_w <= w,
            shadow <= 0x3fff_ffff,
            sy0 <= sy1 <= 0x7fff_ffff,
            sx <= 0x5fff_ffff,
            gap == segment_gap(seg_w as int),
            gx == sx && gw == seg_w && g0 == sy0 && g1 == sy1 && gs == shadow,
            segments(op_views(out@), gx, gw, g0, g1, gs, vol as int, hud, w as int, i as int)
                == segments(start, gx, gw, g0, g1, gs, vol as int, hud, w as int, 0),
        decreases
            VOL_MAX - i,
            (if more {
                1int
            } else {
                0
            }),
    {
        proof {
            assert(i * (seg_w + gap) <= 20 * (seg_w + gap)) by (nonlinear_arith)
                requires
                    0 <= i <= 20,
                    0 <= seg_w + gap,
            ;
            assert(0 <= i * (seg_w + gap)) by (nonlinear_arith)
                requires
                    0 <= i,
                    0 <= seg_w + gap,
            ;
        }
        let ax: u64 = sx as u64 + i as u64 * (seg_w as u64 + gap as u64);
        if ax + seg_w as u64 + shadow as u64 >= w as u64 {
            more = false;
        } else {
            let a: u32 = ax as u32;
            put(
                out,
                Op::Fill(
                    Rect {
                        x0: a + shadow,
                        y0: sy0 + shadow,
                        x1: a + seg_w + shadow,
                        y1: sy1 + shadow,
                    },
                    0xFF00_0000,
                ),
            );
            put(out, Op::Fill(Rect { x0: a, y0: sy0, x1: a + seg_w, y1: sy1 }, hud | 0xFF00_0000));
            if i >= vol {
                // Empty segment: just an outline.
                put(
                    out,
                    Op::Fill(Rect { x0: a + 2, y0: sy0 + 2, x1: a + seg_w - 2, y1: sy1 - 2 }, 0),
                );
            }
            i += 1;
        }
    }
}

proof fn lemma_segments_fit(
    out: Seq<OpView>,
    sx: int,
    seg_w: int,
    sy0: int,
    sy1: int,
    shadow: int,
    volume: int,
    hud: u32,
    w: int,
    h: int,
    i: int,
)
    requires
        all_within(out, w, h),
        0 <= sx,
        4 <= seg_w,
        0 <= i,
        0 <= shadow,
        0 <= sy0,
        sy0 + 4 <= sy1,
        sy1 + shadow <= h,
        w <= 0x3fff_ffff,
        h <= 0x3fff_ffff,
    ensures
        all_within(segments(out, sx, seg_w, sy0, sy1, shadow, volume, hud, w, i), w, h),
    decreases VOL_MAX - i,
{
    let ax = segment_x(sx, seg_w, i);
    if i < VOL_MAX && ax + seg_w + shadow < w {
        assert(ax >= sx) by (nonlinear_arith)
            requires
                ax == sx + i * (seg_w + segment_gap(seg_w)),
                0 <= i,
                0 <= seg_w + segment_gap(seg_w),
        ;
        lemma_segments_fit(
            segment(out, ax, seg_w, sy0, sy1, shadow, i < volume, hud),
            sx,
            seg_w,
            sy0,
            sy1,
            shadow,
            volume,
            hud,
            w,
            h,
            i + 1,
        );
    }
}

/// The volume bar keeps within the window.
pub proof fn the_volume_bar_fits(
    out: Seq<OpView>,
    volume: int,
    muted: bool,
    label_w: int,
    hud: u32,
    w: int,
    h: int,
)
    requires
        drawable(w, h),
        0 <= label_w,
        all_within(out, w, h),
    ensures
        all_within(volume_screen(out, volume, muted, label_w, hud, w, h), w, h),
{
    let px = part_of(h, 60);
    let x = part_of(w, 60);
    let base = part_of(h, 720) + px;
    let label = out.push(
        OpView::Text(
            if muted {
                "MUTE"@
            } else {
                "VOLUME"@
            },
            ink(px, x, base, hud, false),
        ),
    );
    assert(all_within(label, w, h));
    lemma_segments_fit(
        label,
        x + label_w,
        part_of(w, 22),
        base - part_of(px, 620),
        base,
        set_off(px),
        if muted {
            0
        } else {
            volume
        },
        hud,
        w,
        h,
        0,
    );
}

pub open spec fn mute_screen(out: Seq<OpView>, hud: u32, w: int, h: int) -> Seq<OpView> {
    let px = part_of(h, 60);
    out.push(OpView::Text("MUTE"@, ink(px, part_of(w, 60), part_of(h, 720) + px, hud, false)))
}

/// What blinks while the sound is muted.
pub fn draw_mute(out: &mut Vec<Op>, hud: u32, w: u32, h: u32)
    requires
        drawable(w as int, h as int),
    ensures
        op_views(final(out)@) == mute_screen(op_views(old(out)@), hud, w as int, h as int),
{
    let px = part(h, 60);
    let baseline = part(h, 720) as i32 + px as i32;
    put(out, Op::Text("MUTE".to_owned(), unclipped(px, part(w, 60) as i32, baseline, hud, false)));
}

// ---------------------------------------------------------------- legend

pub const HELP_LEN: usize = 12;

/// The keys of the legend.
pub open spec fn help_key(i: int) -> Seq<char> {
    if i == 0 {
        "UP/DOWN"@
    } else if i == 1 {
        "LEFT/RIGHT"@
    } else if i == 2 {
        "0-9, ENTER"@
    } else if i == 3 {
        "ENTER"@
    } else if i == 4 {
        "BACKSPACE"@
    } else if i == 5 {
        "+ / -"@
    } else if i == 6 {
        "M"@
    } else if i == 7 {
        "G"@
    } else if i == 8 {
        "S"@
    } else if i == 9 {
        "C"@
    } else if i == 10 {
        "H / F1"@
    } else {
        "ESC"@
    }
}

fn help_key_name(i: usize) -> (r: &'static str)
    ensures
        r@ == help_key(i as int),
{
    match i {
        0 => "UP/DOWN",
        1 => "LEFT/RIGHT",
        2 => "0-9, ENTER",
        3 => "ENTER",
        4 => "BACKSPACE",
        5 => "+ / -",
        6 => "M",
        7 => "G",
        8 => "S",
        9 => "C",
        10 => "H / F1",
        _ => "ESC",
    }
}

/// What they do.
pub open spec fn help_use(i: int) -> Seq<char> {
    if i == 0 {
        "CHANNEL +/-  (GUIDE: MOVE CURSOR)"@
    } else if i == 1 {
        "CHANNEL +/-10"@
    } else if i == 2 {
        "DIRECT TUNE   (0 = PREVUE CHANNEL)"@
    } else if i == 3 {
        "INFO BANNER / TUNE SELECTION"@
    } else if i == 4 {
        "RECALL LAST CHANNEL"@
    } else if i == 5 {
        "VOLUME"@
    } else if i == 6 {
        "MUTE"@
    } else if i == 7 {
        "INTERACTIVE GUIDE (AGAIN: CLOSE)"@
    } else if i == 8 {
        "SET UP MENU"@
    } else if i == 9 {
        "CRT TUBE"@
    } else if i == 10 {
        "THIS SCREEN"@
    } else {
        "POWER OFF"@
    }
}

fn help_use_name(i: usize) -> (r: &'static str)
    ensures
        r@ == help_use(i as int),
{
    match i {
        0 => "CHANNEL +/-  (GUIDE: MOVE CURSOR)",
        1 => "CHANNEL +/-10",
        2 => "DIRECT TUNE   (0 = PREVUE CHANNEL)",
        3 => "INFO BANNER / TUNE SELECTION",
        4 => "RECALL LAST CHANNEL",
        5 => "VOLUME",
        6 => "MUTE",
        7 => "INTERACTIVE GUIDE (AGAIN: CLOSE)",
        8 => "SET UP MENU",
        9 => "CRT TUBE",
        10 => "THIS SCREEN",
        _ => "POWER OFF",
    }
}

/// The lines of the legend from the first on, `row` pixels apart.
pub open spec fn help_rows(
    out: Seq<OpView>,
    px: int,
    row: int,
    lx: int,
    vx: int,
    b: int,
    hud: u32,
    n: int,
) -> Seq<OpView>
    decreases n,
{
    if n <= 0 {
        out
    } else {
        let at = b + (n - 1) * row;
        help_rows(out, px, row, lx, vx, b, hud, n - 1).push(
            OpView::Text(help_key(n - 1), ink(px, lx, at, hud, false)),
        ).push(OpView::Text(help_use(n - 1), ink(px, vx, at, GUIDE_WHITE, false)))
    }
}

pub open spec fn help_screen(out: Seq<OpView>, hud: u32, w: int, h: int) -> Seq<OpView> {
    let px = part_of(h, 36);
    let row = px * 1450 / 1000;
    let (x0, y0, x1) = (part_of(w, 120), part_of(h, 100), part_of(w, 880));
    let end = y0 + row * (HELP_LEN + 2) + part_of(h, 50);
    let y1 = if end > h {
        h
    } else {
        end
    };
    let lx = x0 + part_of(w, 30);
    let vx = x0 + part_of(w, 260);
    let b = y0 + part_of(h, 30) + px;
    let title = out.push(OpView::Tint(rect(x0, y0, x1, y1), GUIDE_BLUE, 0xE0)).push(
        OpView::Bevel(rect(x0, y0, x1, y1), 3, true),
    ).push(
        OpView::Text("REMOTE CONTROL"@, ink(px * 1250 / 1000, lx, b, GUIDE_YELLOW, false)),
    );
    help_rows(title, px, row, lx, vx, b + row + row / 2, hud, HELP_LEN as int)
}

/// Remote-control legend (H / F1).
pub fn draw_help(out: &mut Vec<Op>, hud: u32, w: u32, h: u32)
    requires
        drawable(w as int, h as int),
    ensures
        op_views(final(out)@) == help_screen(op_views(old(out)@), hud, w as int, h as int),
{
    let px = part(h, 36);
    let row: u32 = (px as u64 * 1450 / 1000) as u32;
    let (x0, y0, x1) = (part(w, 120), part(h, 100), part(w, 880));
    let end: u32 = y0 + row * 14 + part(h, 50);
    let y1: u32 = if end > h { h } else { end };
    let r = Rect { x0, y0, x1, y1 };
    put(out, Op::Tint(r, GUIDE_BLUE, 0xE0));
    put(out, Op::Bevel(r, 3, true));
    let lx = x0 as i32 + part(w, 30) as i32;
    let vx = x0 as i32 + part(w, 260) as i32;
    let b: i32 = y0 as i32 + part(h, 30) as i32 + px as i32;
    let big: u32 = (px as u64 * 1250 / 1000) as u32;
    put(out, Op::Text("REMOTE CONTROL".to_owned(), unclipped(big, lx, b, GUIDE_YELLOW, false)));
    let ghost start = op_views(out@);
    let ghost (gp, gr, gl, gv) = (px as int, row as int, lx as int, vx as int);
    let first: i32 = b + (row + row / 2) as i32;
    let mut at: i32 = first;
    let mut i: usize = 0;
    while i < HELP_LEN
        invariant
            i <= HELP_LEN,
            gp == px && gr == row && gl == lx && gv == vx,
            row <= 0x400_0000,
            0 <= first <= 0x2000_0000,
            at == first + i * row,
            op_views(out@) == help_rows(start, gp, gr, gl, gv, first as int, hud, i as int),
        decreases HELP_LEN - i,
    {
        put(out, Op::Text(help_key_name(i).to_owned(), unclipped(px, lx, at, hud, false)));
        put(out, Op::Text(help_use_name(i).to_owned(), unclipped(px, vx, at, GUIDE_WHITE, false)));
        proof {
            assert((i + 1) * gr == i * gr + gr) by (nonlinear_arith);
            assert(i * gr <= 12 * 0x400_0000) by (nonlinear_arith)
                requires
                    i <= 12,
                    0 <= gr <= 0x400_0000,
            ;
        }
        at = at + row as i32;
        i += 1;
    }
}

proof fn lemma_help_rows_fit(
    out: Seq<OpView>,
    px: int,
    row: int,
    lx: int,
    vx: int,
    b: int,
    hud: u32,
    n: int,
    w: int,
    h: int,
)
    requires
        all_within(out, w, h),
    ensures
        all_within(help_rows(out, px, row, lx, vx, b, hud, n), w, h),
    decreases n,
{
    if n > 0 {
        lemma_help_rows_fit(out, px, row, lx, vx, b, hud, n - 1, w, h);
    }
}

/// The legend keeps within the window.
pub proof fn the_legend_fits(out: Seq<OpView>, hud: u32, w: int, h: int)
    requires
        drawable(w, h),
        all_within(out, w, h),
    ensures
        all_within(help_screen(out, hud, w, h), w, h),
{
    let px = part_of(h, 36);
    let row = px * 1450 / 1000;
    let (x0, y0, x1) = (part_of(w, 120), part_of(h, 100), part_of(w, 880));
    let end = y0 + row * (HELP_LEN + 2) + part_of(h, 50);
    let y1 = if end > h {
        h
    } else {
        end
    };
    assert(row * (HELP_LEN + 2) == row * 14);
    let lx = x0 + part_of(w, 30);
    let vx = x0 + part_of(w, 260);
    let b = y0 + part_of(h, 30) + px;
    let title = out.push(OpView::Tint(rect(x0, y0, x1, y1), GUIDE_BLUE, 0xE0)).push(
        OpView::Bevel(rect(x0, y0, x1, y1), 3, true),
    ).push(
        OpView::Text("REMOTE CONTROL"@, ink(px * 1250 / 1000, lx, b, GUIDE_YELLOW, false)),
    );
    assert(all_within(title, w, h));
    lemma_help_rows_fit(
        title,
        px,
        row,
        lx,
        vx,
        b + row + row / 2,
        hud,
        HELP_LEN as int,
        w,
        h,
    );
}

// ---------------------------------------------------------------- set up menu

/// The rows of the menu that are on screen at a time.
pub const MENU_ROWS: usize = 9;

/// The first row on screen with the cursor on row `sel`.
pub open spec fn menu_top(sel: int) -> int {
    let t = if sel < 4 {
        0
    } else {
        sel - 4
    };
    if t > MENU_LEN - MENU_ROWS {
        MENU_LEN - MENU_ROWS
    } else {
        t
    }
}

/// The cursor is always on screen.
pub proof fn the_menu_cursor_is_visible(sel: int)
    requires
        0 <= sel < MENU_LEN,
    ensures
        0 <= menu_top(sel) <= sel < menu_top(sel) + MENU_ROWS <= MENU_LEN,
{
}

/// The value of row `i`: between arrows under the cursor; the ZIP code as it is typed.
pub open spec fn menu_value(s: SettingsView, sel: int, zip: Seq<char>, i: int) -> Seq<char> {
    let v = if i == MENU_ZIP && i == sel {
        dashed(zip, encode_utf8(zip).len(), 5)
    } else {
        s.value_text(i)
    };
    if i == sel && i != MENU_ZIP {
        "< "@ + v + " >"@
    } else {
        "  "@ + v + "  "@
    }
}

fn value_line(s: &Settings, sel: usize, zip: &str, i: usize) -> (r: String)
    ensures
        r@ == menu_value(s@, sel as int, zip@, i as int),
{
    let v = if i == MENU_ZIP && i == sel {
        with_dashes(zip, byte_len(zip), 5)
    } else {
        s.value(i)
    };
    if i == sel && i != MENU_ZIP {
        let mut t = "< ".to_owned();
        t.append(v.as_str());
        t.append(" >");
        t
    } else {
        let mut t = "  ".to_owned();
        t.append(v.as_str());
        t.append("  ");
        t
    }
}

/// Row `i` of the menu on the baseline `b`.
pub open spec fn menu_row(
    out: Seq<OpView>,
    s: SettingsView,
    sel: int,
    zip: Seq<char>,
    i: int,
    label_w: int,
    px: int,
    lx: int,
    vx: int,
    b: int,
    hud: u32,
) -> Seq<OpView> {
    let color = if i == sel {
        GUIDE_YELLOW
    } else {
        hud
    };
    let cursor = if i == sel {
        out.push(OpView::Text(">"@, ink(px, lx - part_of(px, 900), b, GUIDE_YELLOW, false)))
    } else {
        out
    };
    let row = cursor.push(OpView::Text(menu_text(i), ink(px, lx, b, color, false))).push(
        OpView::Text(menu_value(s, sel, zip, i), ink(px, vx, b, color, true)),
    );
    if needs_restart(i) {
        row.push(OpView::Text("*"@, ink(px, lx + label_w + px / 2, b, GUIDE_GRAY, false)))
    } else {
        row
    }
}

/// The first `n` rows from row `top` on, `row` pixels apart.
pub open spec fn menu_rows(
    out: Seq<OpView>,
    s: SettingsView,
    sel: int,
    zip: Seq<char>,
    top: int,
    label_w: int,
    px: int,
    row: int,
    lx: int,
    vx: int,
    b: int,
    hud: u32,
    n: int,
) -> Seq<OpView>
    decreases n,
{
    if n <= 0 {
        out
    } else {
        menu_row(
            menu_rows(out, s, sel, zip, top, label_w, px, row, lx, vx, b, hud, n - 1),
            s,
            sel,
            zip,
            top + n - 1,
            label_w,
            px,
            lx,
            vx,
            b + (n - 1) * row,
            hud,
        )
    }
}

pub open spec fn menu_hint(sel: int, geocoding: bool) -> Seq<char> {
    if sel == MENU_ZIP {
        if geocoding {
            "LOOKING UP ZIP..."@
        } else {
            "TYPE 5 DIGITS, ENTER TO APPLY   BACKSPACE DELETES"@
        }
    } else if needs_restart(sel) {
        "* TAKES EFFECT AT NEXT START"@
    } else {
        "UP/DOWN SELECT   LEFT/RIGHT CHANGE   S EXIT"@
    }
}

fn hint_line(sel: usize, geocoding: bool) -> (r: String)
    ensures
        r@ == menu_hint(sel as int, geocoding),
{
    if sel == MENU_ZIP {
        if geocoding {
            "LOOKING UP ZIP...".to_owned()
        } else {
            "TYPE 5 DIGITS, ENTER TO APPLY   BACKSPACE DELETES".to_owned()
        }
    } else if menu_restart(sel) {
        "* TAKES EFFECT AT NEXT START".to_owned()
    } else {
        "UP/DOWN SELECT   LEFT/RIGHT CHANGE   S EXIT".to_owned()
    }
}

pub open spec fn menu_screen(
    out: Seq<OpView>,
    s: SettingsView,
    sel: int,
    zip: Seq<char>,
    geocoding: bool,
    path: Seq<char>,
    label_w: int,
    hud: u32,
    w: int,
    h: int,
) -> Seq<OpView> {
    let px = part_of(h, 42);
    let row = px * 1550 / 1000;
    let lx = part_of(w, 140);
    let vx = part_of(w, 860);
    let b0 = part_of(h, 80) + px;
    let b = b0 + row + row / 2;
    let top = menu_top(sel);
    let small = part_of(h, 28);
    let fb = part_of(h, 800);
    let step = small * 1700 / 1000;
    let title = out.push(OpView::Clear(0xFF_00_00_00)).push(
        OpView::Text("SET UP MENU"@, ink(px * 1300 / 1000, lx, b0, GUIDE_WHITE, false)),
    );
    let above = if top > 0 {
        title.push(OpView::Text("^"@, ink(px, vx, b - row, GUIDE_GRAY, true)))
    } else {
        title
    };
    let rows = menu_rows(
        above,
        s,
        sel,
        zip,
        top,
        label_w,
        px,
        row,
        lx,
        vx,
        b,
        hud,
        MENU_ROWS as int,
    );
    let below = if top + MENU_ROWS < MENU_LEN {
        rows.push(OpView::Text("v"@, ink(px, vx, b + MENU_ROWS * row, GUIDE_GRAY, true)))
    } else {
        rows
    };
    below.push(
        OpView::Text(menu_hint(sel, geocoding), ink(small, lx, fb, GUIDE_WHITE, false)),
    ).push(
        OpView::Text(
            headed("WEATHER: "@, uppercase(s.weather_location), 40),
            ink(small, lx, fb + step, GUIDE_GRAY, false),
        ),
    ).push(
        OpView::Text(
            headed("FILE: "@, uppercase(path), 64),
            ink(small, lx, fb + 2 * step, GUIDE_GRAY, false),
        ),
    )
}

fn draw_menu_row(
    out: &mut Vec<Op>,
    s: &Settings,
    sel: usize,
    zip: &str,
    i: usize,
    label_w: i32,
    px: u32,
    lx: i32,
    vx: i32,
    b: i32,
    hud: u32,
)
    requires
        px <= 0x1000_0000,
        0 <= lx <= 0x3fff_ffff,
        0 <= label_w <= 0x1fff_ffff,
    ensures
        op_views(final(out)@) == menu_row(
            op_views(old(out)@),
            s@,
            sel as int,
            zip@,
            i as int,
            label_w as int,
            px as int,
            lx as int,
            vx as int,
            b as int,
            hud,
        ),
{
    let color = if i == sel { GUIDE_YELLOW } else { hud };
    if i == sel {
        let cx = lx - part(px, 900) as i32;
        put(out, Op::Text(">".to_owned(), unclipped(px, cx, b, GUIDE_YELLOW, false)));
    }
    put(out, Op::Text(menu_label(i).to_owned(), unclipped(px, lx, b, color, false)));
    put(out, Op::Text(value_line(s, sel, zip, i), unclipped(px, vx, b, color, true)));
    if menu_restart(i) {
        let sx = lx + label_w + (px / 2) as i32;
        put(out, Op::Text("*".to_owned(), unclipped(px, sx, b, GUIDE_GRAY, false)));
    }
}

/// VCR setup menu: black screen, rows in the HUD colour, cursor, values on the right. Scrolls when
/// there are more rows than fit. `label_w` is the width of the label that has a star behind it.
pub fn draw_menu(
    out: &mut Vec<Op>,
    s: &Settings,
    sel: usize,
    zip: &str,
    geocoding: bool,
    path: &str,
    label_w: i32,
    w: u32,
    h: u32,
)
    requires
        drawable(w as int, h as int),
        sel < MENU_LEN,
        0 <= label_w <= 0x1fff_ffff,
    ensures
        op_views(final(out)@) == menu_screen(
            op_views(old(out)@),
            s@,
            sel as int,
            zip@,
            geocoding,
            path@,
            label_w as int,
            crate::settings::hud_rgb(s.hud as int),
            w as int,
            h as int,
        ),
{
    let hud = s.hud_color();
    put(out, Op::Clear(0xFF_00_00_00));
    let px = part(h, 42);
    let row: u32 = (px as u64 * 1550 / 1000) as u32;
    let lx = part(w, 140) as i32;
    let vx = part(w, 860) as i32;
    let b0: i32 = part(h, 80) as i32 + px as i32;
    let big: u32 = (px as u64 * 1300 / 1000) as u32;
    put(out, Op::Text("SET UP MENU".to_owned(), unclipped(big, lx, b0, GUIDE_WHITE, false)));
    let b: i32 = b0 + (row + row / 2) as i32;
    let half: usize = if sel < 4 { 0 } else { sel - 4 };
    let top: usize = if half > MENU_LEN - MENU_ROWS { MENU_LEN - MENU_ROWS } else { half };
    if top > 0 {
        put(out, Op::Text("^".to_owned(), unclipped(px, vx, b - row as i32, GUIDE_GRAY, true)));
    }
    let ghost start = op_views(out@);
    let ghost (gt, gw, gp, gr, gl, gv) = (
        top as int,
        label_w as int,
        px as int,
        row as int,
        lx as int,
        vx as int,
    );
    let mut at: i32 = b;
    let mut k: usize = 0;
    while k < MENU_ROWS
        invariant
            k <= MENU_ROWS,
            top <= 7,
            gt == top && gw == label_w && gp == px && gr == row && gl == lx && gv == vx,
            px <= 0x1000_0000,
            row <= 0x800_0000,
            0 <= lx <= 0x3fff_ffff,
            0 <= label_w <= 0x1fff_ffff,
            0 <= b <= 0x1800_0000,
            at == b + k * row,
            op_views(out@) == menu_rows(
                start,
                s@,
                sel as int,
                zip@,
                gt,
                gw,
                gp,
                gr,
                gl,
                gv,
                b as int,
                hud,
                k as int,
            ),
        decreases MENU_ROWS - k,
    {
        draw_menu_row(out, s, sel, zip, top + k, label_w, px, lx, vx, at, hud);
        proof {
            assert((k + 1) * gr == k * gr + gr) by (nonlinear_arith);
            assert(k * gr <= 9 * 0x800_0000) by (nonlinear_arith)
                requires
                    k <= 9,
                    0 <= gr <= 0x800_0000,
            ;
        }
        at = at + row as i32;
        k += 1;
    }
    if top + MENU_ROWS < MENU_LEN {
        put(out, Op::Text("v".to_owned(), unclipped(px, vx, at, GUIDE_GRAY, true)));
    }
    let small = part(h, 28);
    let step = (small as u64 * 1700 / 1000) as i32;
    let fb = part(h, 800) as i32;
    put(out, Op::Text(hint_line(sel, geocoding), unclipped(small, lx, fb, GUIDE_WHITE, false)));
    let place = to_uppercase(s.weather_location.as_str());
    put(
        out,
        Op::Text(
            head_cut("WEATHER: ", place.as_str(), 40),
            unclipped(small, lx, fb + step, GUIDE_GRAY, false),
        ),
    );
    let file = to_uppercase(path);
    put(
        out,
        Op::Text(
            head_cut("FILE: ", file.as_str(), 64),
            unclipped(small, lx, fb + 2 * step, GUIDE_GRAY, false),
        ),
    );
}

// ---------------------------------------------------------------- loading screen

/// The status line while loading: one to three dots come and go behind it.
pub open spec fn status_text(status: Seq<char>, since: int) -> Seq<char> {
    status + Seq::new((since / 400_000 % 4) as nat, |i: int| '.')
}

fn status_line(status: &str, since: i64) -> (r: String)
    requires
        0 <= since,
    ensures
        r@ == status_text(status@, since as int),
{
    let n: i64 = since / 400_000 % 4;
    let mut s = status.to_owned();
    let mut i: i64 = 0;
    assert(s@ =~= status@ + Seq::new(0, |i: int| '.'));
    while i < n
        invariant
            0 <= i <= n,
            s@ == status@ + Seq::new(i as nat, |i: int| '.'),
        decreases n - i,
    {
        s.push('.');
        assert(s@ =~= status@ + Seq::new((i + 1) as nat, |i: int| '.'));
        i += 1;
    }
    s
}

pub open spec fn boot_screen(
    status: Seq<char>,
    since: int,
    title_w: int,
    hud: u32,
    w: int,
    h: int,
) -> Seq<OpView> {
    let big = part_of(h, 110);
    let small = part_of(h, 40);
    let d = w * 1000 - title_w;
    let cx = if d >= 0 {
        d / 2000
    } else {
        -((-d) / 2000)
    };
    Seq::<OpView>::empty().push(OpView::Clear(0)).push(
        OpView::Text("PLEASE STAND BY"@, ink(big, cx, part_of(h, 470), hud, false)),
    ).push(
        OpView::Text(
            status_text(status, since),
            ink(small, part_of(w, 80), part_of(h, 880), GUIDE_GRAY, false),
        ),
    ).push(OpView::Text("TUNER"@, ink(small, part_of(w, 920), part_of(h, 880), GUIDE_GRAY, true)))
}

/// The loading screen: "PLEASE STAND BY", centred, `title_w` thousandths of a pixel wide, and what
/// is being done.
pub fn draw_boot(status: &str, since: i64, title_w: i64, hud: u32, w: u32, h: u32) -> (r: Vec<Op>)
    requires
        drawable(w as int, h as int),
        0 <= title_w <= 0xff_ffff_ffff,
        0 <= since,
    ensures
        op_views(r@) == boot_screen(
            status@,
            since as int,
            title_w as int,
            hud,
            w as int,
            h as int,
        ),
{
    let mut out: Vec<Op> = Vec::new();
    assert(op_views(out@) =~= Seq::empty());
    put(&mut out, Op::Clear(0));
    let big = part(h, 110);
    let d: i64 = w as i64 * 1000 - title_w;
    let cx: i32 = if d >= 0 { (d / 2000) as i32 } else { (-((-d) / 2000)) as i32 };
    put(
        &mut out,
        Op::Text(
            "PLEASE STAND BY".to_owned(),
            unclipped(big, cx, part(h, 470) as i32, hud, false),
        ),
    );
    let small = part(h, 40);
    let base = part(h, 880) as i32;
    put(
        &mut out,
        Op::Text(
            status_line(status, since),
            unclipped(small, part(w, 80) as i32, base, GUIDE_GRAY, false),
        ),
    );
    put(
        &mut out,
        Op::Text(
            "TUNER".to_owned(),
            unclipped(small, part(w, 920) as i32, base, GUIDE_GRAY, true),
        ),
    );
    out
}

// ---------------------------------------------------------------- what the screens say

/// A time that is left is shown to the second: so many hours, where there are any, minutes and
/// seconds, the last two below sixty, that together are the whole seconds of it.
pub proof fn the_time_left_adds_up(left: int) -> (hms: (nat, nat, nat))
    requires
        0 <= left,
        left / 1_000_000 <= i64::MAX,
    ensures
        hms.1 < 60,
        hms.2 < 60,
        hms.0 * 3600 + hms.1 * 60 + hms.2 == left / 1_000_000,
        hms.0 == 0 ==> time_left(left) == decimal(hms.1) + ":"@ + decimal_padded(hms.2, 2),
        hms.0 > 0 ==> time_left(left) == decimal(hms.0) + ":"@ + decimal_padded(hms.1, 2) + ":"@
            + decimal_padded(hms.2, 2),
{
    let s = left / 1_000_000;
    reveal_strlit(":");
    assert(":"@ =~= seq![':']);
    ((s / 3600) as nat, (s / 60 % 60) as nat, (s % 60) as nat)
}

/// The big number is that of the channel, in so many digits at least; while one is typed it is the
/// digits so far, with a dash for each still to come.
pub proof fn the_number_shows_the_channel(cur: int, entry: Seq<char>, nd: nat)
    requires
        0 <= cur,
        all_digits(entry),
    ensures
        entry.len() == 0 ==> all_digits(number_text(cur, entry, nd)) && digits_value(
            number_text(cur, entry, nd),
        ) == cur && number_text(cur, entry, nd).len() >= nd,
        0 < entry.len() <= nd ==> number_text(cur, entry, nd).len() == nd && number_text(
            cur,
            entry,
            nd,
        ).take(entry.len() as int) == entry && forall|i: int|
            entry.len() <= i < nd ==> #[trigger] number_text(cur, entry, nd)[i] == '-',
{
    padded_decimals_read_back(cur as nat, nd);
    lemma_one_byte_each(entry);
    if 0 < entry.len() <= nd {
        assert(number_text(cur, entry, nd).take(entry.len() as int) =~= entry);
    }
}

/// A digit is one byte.
proof fn lemma_one_byte_each(s: Seq<char>)
    requires
        all_digits(s),
    ensures
        encode_utf8(s).len() == s.len(),
    decreases s.len(),
{
    if s.len() > 0 {
        let r = s.drop_first();
        assert forall|i: int| 0 <= i < r.len() implies '0' <= #[trigger] r[i] <= '9' by {
            assert('0' <= s[i + 1] <= '9');
        }
        assert('0' <= s[0] <= '9');
        lemma_one_byte_each(r);
    }
}

/// What the banner says: on its upper line, from the left, the channel's number and network and
/// what is on now, and the clock at the right; on its lower line what is next, and at the right the
/// time that is left, where any is.
pub proof fn the_banner_says_what_is_on(
    out: Seq<OpView>,
    ch: int,
    i: ChanInfo,
    clock: Seq<char>,
    head_w: int,
    hud: u32,
    w: int,
    h: int,
)
    requires
        drawable(w, h),
        0 <= ch,
        0 <= head_w <= 0x1fff_ffff,
    ensures
        ({
            let s = banner_screen(out, ch, i, clock, head_w, hud, w, h);
            let k = out.len() as int + 2;
            &&& s.len() > k + 6
            &&& s[k] matches OpView::Text(t, a) && t.len() > 2 && digits_value(
                t.take(decimal_padded(ch as nat, 2).len() as int),
            ) == ch && begins_with(
                t.skip(decimal_padded(ch as nat, 2).len() as int + 1),
                i.net@,
                12,
            ) && !a.right
            &&& s[k + 1] matches OpView::Text(t, a) && begins_with(t, i.now@, 26) && !a.right
                && a.baseline == s[k]->Text_1.baseline && a.x > s[k]->Text_1.x + head_w
            &&& s[k + 2] matches OpView::Text(t, a) && t.take(6) == "NEXT  "@ && begins_with(
                t.skip(6),
                i.next@,
                30,
            ) && a.baseline > s[k]->Text_1.baseline && a.x == s[k]->Text_1.x && !a.right
            &&& s[k + 3] matches OpView::Text(t, a) && t == clock && a.right && a.baseline
                == s[k]->Text_1.baseline && a.x > s[k]->Text_1.x
            &&& i.left > 0 ==> (s[k + 4] matches OpView::Text(t, a) && t == time_left(i.left as int)
                + " LEFT"@ && a.right && a.x == s[k + 3]->Text_1.x && a.baseline == s[k
                + 2]->Text_1.baseline)
            &&& i.left == 0 ==> !(s[k + 4] is Text)
        }),
{
    let s = banner_screen(out, ch, i, clock, head_w, hud, w, h);
    let k = out.len() as int + 2;
    let num = decimal_padded(ch as nat, 2);
    padded_decimals_read_back(ch as nat, 2);
    cutting_keeps_the_beginning(i.net@, 12);
    cutting_keeps_the_beginning(i.now@, 26);
    cutting_keeps_the_beginning(i.next@, 30);
    let head = banner_head(ch, i.net@);
    assert(head.take(num.len() as int) =~= num);
    assert(head.skip(num.len() as int + 1) =~= first_chars(i.net@, 12));
    reveal_strlit("NEXT  ");
    let next = headed("NEXT  "@, i.next@, 30);
    assert(next.take(6) =~= "NEXT  "@);
    assert(next.skip(6) =~= first_chars(i.next@, 30));
    assert(s[k] == OpView::Text(head, s[k]->Text_1));
}

/// The bar of the banner reaches as far through its track as the program is played: the last step
/// of the banner is the bar, nothing of it where nothing has played, and all of the track, but for
/// its edge, where everything has.
pub proof fn the_bar_reaches_as_far_as_the_program(
    out: Seq<OpView>,
    ch: int,
    i: ChanInfo,
    clock: Seq<char>,
    head_w: int,
    hud: u32,
    w: int,
    h: int,
)
    requires
        drawable(w, h),
        0 < i.of,
        i.done <= i.of,
    ensures
        ({
            let s = banner_screen(out, ch, i, clock, head_w, hud, w, h);
            let n = s.len() as int;
            &&& n >= 3
            &&& s[n - 3] is Fill && s[n - 1] is Fill
            &&& ({
                let (track, bar) = (s[n - 3]->Fill_0, s[n - 1]->Fill_0);
                let room = track.x1 - track.x0 - 2;
                let reach = bar.x1 - bar.x0;
                &&& room > 0
                &&& bar.x0 == track.x0 + 1 && bar.y0 == track.y0 + 1 && bar.y1 == track.y1 - 1
                &&& 0 <= reach <= room
                &&& reach * i.of <= room * i.done < (reach + 1) * i.of
                &&& i.done == 0 ==> reach == 0
                &&& i.done == i.of ==> reach == room
            })
            &&& s[n - 1]->Fill_1 == opaque(hud)
        }),
{
    let room = part_of(w, 960) - part_of(w, 20) - (part_of(w, 40) + part_of(w, 20)) - 2;
    let (done, of) = (i.done as int, i.of as int);
    assert(0 <= room * done <= room * of) by (nonlinear_arith)
        requires
            0 <= done <= of,
            0 <= room,
    ;
    let reach = bar_reach(room, done, of);
    vstd::arithmetic::div_mod::lemma_div_is_ordered(room * done, room * of, of);
    vstd::arithmetic::div_mod::lemma_div_multiples_vanish(room, of);
    assert(of * room == room * of) by (nonlinear_arith);
    vstd::arithmetic::div_mod::lemma_div_pos_is_pos(room * done, of);
    vstd::arithmetic::div_mod::lemma_fundamental_div_mod(room * done, of);
    vstd::arithmetic::div_mod::lemma_mod_bound(room * done, of);
    assert(reach * of <= room * done < (reach + 1) * of) by (nonlinear_arith)
        requires
            room * done == of * reach + (room * done) % of,
            0 <= (room * done) % of < of,
    ;
    if done == 0 {
        assert(room * done == 0) by (nonlinear_arith)
            requires
                done == 0,
        ;
        vstd::arithmetic::div_mod::lemma_div_basics(of);
    }
}

// ---------------------------------------------------------------- what the volume bar says

/// How many segments fit from segment `i` on.
pub open spec fn segments_that_fit(sx: int, seg_w: int, shadow: int, w: int, i: int) -> int
    decreases VOL_MAX - i,
{
    if i >= VOL_MAX || segment_x(sx, seg_w, i) + seg_w + shadow >= w {
        0
    } else {
        1 + segments_that_fit(sx, seg_w, shadow, w, i + 1)
    }
}

proof fn lemma_segment_count(
    out: Seq<OpView>,
    sx: int,
    seg_w: int,
    sy0: int,
    sy1: int,
    shadow: int,
    volume: int,
    hud: u32,
    w: int,
    i: int,
)
    requires
        0 <= i,
        0 <= volume,
    ensures
        ({
            let n = segments_that_fit(sx, seg_w, shadow, w, i);
            let lit = if volume <= i {
                0
            } else if volume - i < n {
                volume - i
            } else {
                n
            };
            &&& 0 <= n
            &&& segments(out, sx, seg_w, sy0, sy1, shadow, volume, hud, w, i).len() == out.len() + 3
                * n - lit
            &&& segments(out, sx, seg_w, sy0, sy1, shadow, volume, hud, w, i).take(
                out.len() as int,
            ) == out
        }),
    decreases VOL_MAX - i,
{
    let all = segments(out, sx, seg_w, sy0, sy1, shadow, volume, hud, w, i);
    let ax = segment_x(sx, seg_w, i);
    if i < VOL_MAX && ax + seg_w + shadow < w {
        let next = segment(out, ax, seg_w, sy0, sy1, shadow, i < volume, hud);
        lemma_segment_count(next, sx, seg_w, sy0, sy1, shadow, volume, hud, w, i + 1);
        assert(all.take(out.len() as int) =~= out) by {
            assert forall|x: int| 0 <= x < out.len() implies all[x] == out[x] by {
                assert(all.take(next.len() as int)[x] == all[x]);
            }
        }
    } else {
        assert(all.take(out.len() as int) =~= out);
    }
}

/// Of the segments of the volume bar one is lit for every step of the volume, as far as they fit:
/// each takes two steps to draw where it is lit and three where it is just an outline. The label says
/// VOLUME; muted it says MUTE, and no segment is lit.
pub proof fn a_segment_is_lit_for_every_step(
    out: Seq<OpView>,
    volume: int,
    muted: bool,
    label_w: int,
    hud: u32,
    w: int,
    h: int,
)
    requires
        drawable(w, h),
        0 <= volume <= VOL_MAX,
    ensures
        ({
            let s = volume_screen(out, volume, muted, label_w, hud, w, h);
            let n = segments_that_fit(
                part_of(w, 60) + label_w,
                part_of(w, 22),
                set_off(part_of(h, 60)),
                w,
                0,
            );
            let lit = if muted {
                0
            } else if volume < n {
                volume
            } else {
                n
            };
            &&& s.len() == out.len() + 1 + 3 * n - lit
            &&& s[out.len() as int] matches OpView::Text(t, a) && t == (if muted {
                "MUTE"@
            } else {
                "VOLUME"@
            })
        }),
{
    let px = part_of(h, 60);
    let base = part_of(h, 720) + px;
    let label = out.push(
        OpView::Text(
            if muted {
                "MUTE"@
            } else {
                "VOLUME"@
            },
            ink(px, part_of(w, 60), base, hud, false),
        ),
    );
    let shown: int = if muted {
        0
    } else {
        volume
    };
    lemma_segment_count(
        label,
        part_of(w, 60) + label_w,
        part_of(w, 22),
        base - part_of(px, 620),
        base,
        set_off(px),
        shown,
        hud,
        w,
        0,
    );
    let s = volume_screen(out, volume, muted, label_w, hud, w, h);
    assert(s.take(label.len() as int)[out.len() as int] == label[out.len() as int]);
}

// ---------------------------------------------------------------- what the menu says

proof fn lemma_menu_row(
    out: Seq<OpView>,
    s: SettingsView,
    sel: int,
    zip: Seq<char>,
    i: int,
    label_w: int,
    px: int,
    lx: int,
    vx: int,
    b: int,
    hud: u32,
) -> (k: int)
    ensures
        ({
            let r = menu_row(out, s, sel, zip, i, label_w, px, lx, vx, b, hud);
            &&& out.len() <= k && k + 2 <= r.len()
            &&& r.take(out.len() as int) == out
            &&& r[k] == OpView::Text(r[k]->Text_0, r[k]->Text_1)
            &&& r[k]->Text_0 == menu_text(i)
            &&& r[k]->Text_1.x == lx as i32 && r[k]->Text_1.baseline == b as i32
            &&& !r[k]->Text_1.right
            &&& r[k + 1] == OpView::Text(menu_value(s, sel, zip, i), r[k + 1]->Text_1)
            &&& r[k + 1]->Text_1.x == vx as i32 && r[k + 1]->Text_1.baseline == b as i32
            &&& r[k + 1]->Text_1.right
            &&& i == sel ==> k > out.len() && r[k - 1] == OpView::Text(">"@, r[k - 1]->Text_1)
                && r[k - 1]->Text_1.baseline == b as i32
            &&& i != sel ==> k == out.len()
        }),
{
    let r = menu_row(out, s, sel, zip, i, label_w, px, lx, vx, b, hud);
    assert(r.take(out.len() as int) =~= out);
    if i == sel {
        out.len() as int + 1
    } else {
        out.len() as int
    }
}

proof fn lemma_menu_rows(
    out: Seq<OpView>,
    s: SettingsView,
    sel: int,
    zip: Seq<char>,
    top: int,
    label_w: int,
    px: int,
    row: int,
    lx: int,
    vx: int,
    b: int,
    hud: u32,
    n: int,
    q: int,
) -> (k: int)
    requires
        0 <= q < n,
    ensures
        ({
            let r = menu_rows(out, s, sel, zip, top, label_w, px, row, lx, vx, b, hud, n);
            let i = top + q;
            &&& out.len() <= k && k + 2 <= r.len()
            &&& r[k] == OpView::Text(menu_text(i), r[k]->Text_1)
            &&& r[k]->Text_1.x == lx as i32 && r[k]->Text_1.baseline == (b + q * row) as i32
            &&& !r[k]->Text_1.right
            &&& r[k + 1] == OpView::Text(menu_value(s, sel, zip, i), r[k + 1]->Text_1)
            &&& r[k + 1]->Text_1.x == vx as i32 && r[k + 1]->Text_1.baseline == (b + q
                * row) as i32
            &&& r[k + 1]->Text_1.right
            &&& i == sel ==> k > out.len() && r[k - 1] == OpView::Text(">"@, r[k - 1]->Text_1)
                && r[k - 1]->Text_1.baseline == (b + q * row) as i32
        }),
    decreases n,
{
    let before = menu_rows(out, s, sel, zip, top, label_w, px, row, lx, vx, b, hud, n - 1);
    let r = menu_rows(out, s, sel, zip, top, label_w, px, row, lx, vx, b, hud, n);
    lemma_menu_extends(out, s, sel, zip, top, label_w, px, row, lx, vx, b, hud, n - 1);
    let at = lemma_menu_row(
        before,
        s,
        sel,
        zip,
        top + n - 1,
        label_w,
        px,
        lx,
        vx,
        b + (n - 1) * row,
        hud,
    );
    if q == n - 1 {
        at
    } else {
        let k = lemma_menu_rows(
            out,
            s,
            sel,
            zip,
            top,
            label_w,
            px,
            row,
            lx,
            vx,
            b,
            hud,
            n - 1,
            q,
        );
        assert(r.take(before.len() as int)[k] == r[k]);
        assert(r.take(before.len() as int)[k + 1] == r[k + 1]);
        if top + q == sel {
            assert(r.take(before.len() as int)[k - 1] == r[k - 1]);
        }
        k
    }
}

proof fn lemma_menu_extends(
    out: Seq<OpView>,
    s: SettingsView,
    sel: int,
    zip: Seq<char>,
    top: int,
    label_w: int,
    px: int,
    row: int,
    lx: int,
    vx: int,
    b: int,
    hud: u32,
    n: int,
)
    ensures
        menu_rows(out, s, sel, zip, top, label_w, px, row, lx, vx, b, hud, n).len() >= out.len(),
        forall|k: int|
            0 <= k < out.len() ==> #[trigger] menu_rows(
                out,
                s,
                sel,
                zip,
                top,
                label_w,
                px,
                row,
                lx,
                vx,
                b,
                hud,
                n,
            )[k] == out[k],
    decreases n,
{
    if n > 0 {
        lemma_menu_extends(out, s, sel, zip, top, label_w, px, row, lx, vx, b, hud, n - 1);
        let at = lemma_menu_row(
            menu_rows(out, s, sel, zip, top, label_w, px, row, lx, vx, b, hud, n - 1),
            s,
            sel,
            zip,
            top + n - 1,
            label_w,
            px,
            lx,
            vx,
            b + (n - 1) * row,
            hud,
        );
    }
}

/// Every row of the menu that is on screen has its label at the left and its own value at the right
/// of the same line, lower rows further down. The row of the cursor has a mark in front, and its
/// value stands between arrows.
pub proof fn rows_show_their_values(
    out: Seq<OpView>,
    s: SettingsView,
    sel: int,
    zip: Seq<char>,
    geocoding: bool,
    path: Seq<char>,
    label_w: int,
    hud: u32,
    w: int,
    h: int,
    i: int,
) -> (k: int)
    requires
        drawable(w, h),
        0 <= sel < MENU_LEN,
        menu_top(sel) <= i < menu_top(sel) + MENU_ROWS,
    ensures
        ({
            let r = menu_screen(out, s, sel, zip, geocoding, path, label_w, hud, w, h);
            let row = part_of(h, 42) * 1550 / 1000;
            let first = part_of(h, 80) + part_of(h, 42) + row + row / 2;
            &&& out.len() < k && k + 2 <= r.len()
            &&& r[k] matches OpView::Text(t, a) && t == menu_text(i) && !a.right && a.baseline
                == first + (i - menu_top(sel)) * row
            &&& r[k + 1] matches OpView::Text(t, a) && a.right && a.baseline == r[k]->Text_1.baseline
                && a.x > r[k]->Text_1.x && {
                &&& i != MENU_ZIP && i != sel ==> t == "  "@ + s.value_text(i) + "  "@
                &&& i != MENU_ZIP && i == sel ==> t == "< "@ + s.value_text(i) + " >"@
                &&& i == MENU_ZIP && i != sel ==> t == "  "@ + s.value_text(i) + "  "@
                &&& i == MENU_ZIP && i == sel ==> t.take(2) == "  "@ && t.subrange(
                    2,
                    2 + zip.len() as int,
                ) == zip
            }
            &&& i == sel ==> (r[k - 1] matches OpView::Text(t, a) && t == ">"@ && a.baseline
                == r[k]->Text_1.baseline)
        }),
{
    let px = part_of(h, 42);
    let row = px * 1550 / 1000;
    let lx = part_of(w, 140);
    let vx = part_of(w, 860);
    let b0 = part_of(h, 80) + px;
    let b = b0 + row + row / 2;
    let top = menu_top(sel);
    let title = out.push(OpView::Clear(0xFF_00_00_00)).push(
        OpView::Text("SET UP MENU"@, ink(px * 1300 / 1000, lx, b0, GUIDE_WHITE, false)),
    );
    let above = if top > 0 {
        title.push(OpView::Text("^"@, ink(px, vx, b - row, GUIDE_GRAY, true)))
    } else {
        title
    };
    let rows = menu_rows(
        above,
        s,
        sel,
        zip,
        top,
        label_w,
        px,
        row,
        lx,
        vx,
        b,
        hud,
        MENU_ROWS as int,
    );
    let k = lemma_menu_rows(
        above,
        s,
        sel,
        zip,
        top,
        label_w,
        px,
        row,
        lx,
        vx,
        b,
        hud,
        MENU_ROWS as int,
        i - top,
    );
    let q = i - top;
    assert(0 <= q * row <= 9 * row) by (nonlinear_arith)
        requires
            0 <= q <= 9,
            0 <= row,
    ;
    let r = menu_screen(out, s, sel, zip, geocoding, path, label_w, hud, w, h);
    assert(r[k] == rows[k] && r[k + 1] == rows[k + 1]);
    assert(i == sel ==> r[k - 1] == rows[k - 1]);
    if i == MENU_ZIP && i == sel {
        reveal_strlit("  ");
        let t = menu_value(s, sel, zip, i);
        assert(t.take(2) =~= "  "@);
        assert(t.subrange(2, 2 + zip.len() as int) =~= zip);
    }
    k
}

/// The lines of the legend: behind every key, at the same height, stands what it does; none is left
/// out.
pub proof fn the_legend_lists_every_key(out: Seq<OpView>, hud: u32, w: int, h: int, i: int)
    requires
        drawable(w, h),
        0 <= i < HELP_LEN,
    ensures
        ({
            let s = help_screen(out, hud, w, h);
            let k = out.len() as int + 3 + 2 * i;
            &&& s.len() == out.len() + 3 + 2 * HELP_LEN
            &&& s[k] matches OpView::Text(t, a) && t == help_key(i)
            &&& s[k + 1] matches OpView::Text(t, a) && t == help_use(i) && a.baseline
                == s[k]->Text_1.baseline && a.x > s[k]->Text_1.x
            &&& i > 0 ==> s[k]->Text_1.baseline > s[k - 2]->Text_1.baseline
        }),
{
    let px = part_of(h, 36);
    let row = px * 1450 / 1000;
    let (x0, y0, x1) = (part_of(w, 120), part_of(h, 100), part_of(w, 880));
    let end = y0 + row * (HELP_LEN + 2) + part_of(h, 50);
    let y1 = if end > h {
        h
    } else {
        end
    };
    let lx = x0 + part_of(w, 30);
    let vx = x0 + part_of(w, 260);
    let b = y0 + part_of(h, 30) + px;
    let title = out.push(OpView::Tint(rect(x0, y0, x1, y1), GUIDE_BLUE, 0xE0)).push(
        OpView::Bevel(rect(x0, y0, x1, y1), 3, true),
    ).push(
        OpView::Text("REMOTE CONTROL"@, ink(px * 1250 / 1000, lx, b, GUIDE_YELLOW, false)),
    );
    let first = b + row + row / 2;
    lemma_help_rows(title, px, row, lx, vx, first, hud, HELP_LEN as int, i);
    assert(0 <= i * row <= 12 * row) by (nonlinear_arith)
        requires
            0 <= i <= 12,
            0 <= row,
    ;
    if i > 0 {
        lemma_help_rows(title, px, row, lx, vx, first, hud, HELP_LEN as int, i - 1);
        assert((i - 1) * row == i * row - row) by (nonlinear_arith);
        assert(row > 0);
    }
}

proof fn lemma_help_rows(
    out: Seq<OpView>,
    px: int,
    row: int,
    lx: int,
    vx: int,
    b: int,
    hud: u32,
    n: int,
    i: int,
)
    requires
        0 <= i < n,
    ensures
        ({
            let s = help_rows(out, px, row, lx, vx, b, hud, n);
            let k = out.len() as int + 2 * i;
            &&& s.len() == out.len() + 2 * n
            &&& s[k] == OpView::Text(help_key(i), ink(px, lx, b + i * row, hud, false))
            &&& s[k + 1] == OpView::Text(
                help_use(i),
                ink(px, vx, b + i * row, GUIDE_WHITE, false),
            )
        }),
    decreases n,
{
    if i < n - 1 {
        lemma_help_rows(out, px, row, lx, vx, b, hud, n - 1, i);
    } else {
        lemma_help_length(out, px, row, lx, vx, b, hud, n - 1);
    }
}

proof fn lemma_help_length(
    out: Seq<OpView>,
    px: int,
    row: int,
    lx: int,
    vx: int,
    b: int,
    hud: u32,
    n: int,
)
    requires
        0 <= n,
    ensures
        help_rows(out, px, row, lx, vx, b, hud, n).len() == out.len() + 2 * n,
    decreases n,
{
    if n > 0 {
        lemma_help_length(out, px, row, lx, vx, b, hud, n - 1);
    }
}

/// While the set loads it says so, and what is being done, with none to three dots behind it, one
/// more every 0.4 seconds and then none again.
pub proof fn the_loading_screen_says_what_is_done(
    status: Seq<char>,
    since: int,
    title_w: int,
    hud: u32,
    w: int,
    h: int,
)
    requires
        drawable(w, h),
        0 <= since,
    ensures
        ({
            let s = boot_screen(status, since, title_w, hud, w, h);
            let (now, soon) = (status_text(status, since), status_text(status, since + 400_000));
            &&& s.len() == 4
            &&& s[1] matches OpView::Text(t, a) && t == "PLEASE STAND BY"@
            &&& s[2] matches OpView::Text(t, a) && t == now && !a.right
            &&& s[3] matches OpView::Text(t, a) && t == "TUNER"@ && a.right && a.baseline
                == s[2]->Text_1.baseline && a.x > s[2]->Text_1.x
            &&& now.take(status.len() as int) == status
            &&& forall|i: int| status.len() <= i < now.len() ==> #[trigger] now[i] == '.'
            &&& now.len() <= status.len() + 3
            &&& now.len() < status.len() + 3 ==> soon == now.push('.')
            &&& now.len() == status.len() + 3 ==> soon == status
        }),
{
    let n = since / 400_000;
    assert((since + 400_000) / 400_000 == n + 1);
    let (now, soon) = (status_text(status, since), status_text(status, since + 400_000));
    assert(now.take(status.len() as int) =~= status);
    if n % 4 < 3 {
        assert((n + 1) % 4 == n % 4 + 1);
        assert(soon =~= now.push('.'));
    } else {
        assert((n + 1) % 4 == 0);
        assert(soon =~= status);
    }
}

/// The volume bar is drawn over what is there already.
pub proof fn lemma_volume_extends(
    out: Seq<OpView>,
    volume: int,
    muted: bool,
    label_w: int,
    hud: u32,
    w: int,
    h: int,
)
    requires
        0 <= volume,
    ensures
        ({
            let s = volume_screen(out, volume, muted, label_w, hud, w, h);
            &&& s.len() > out.len()
            &&& forall|k: int| 0 <= k < out.len() ==> #[trigger] s[k] == out[k]
            &&& s[out.len() as int] matches OpView::Text(t, a) && a.color == hud && t == (if muted {
                "MUTE"@
            } else {
                "VOLUME"@
            })
        }),
{
    let s = volume_screen(out, volume, muted, label_w, hud, w, h);
    let px = part_of(h, 60);
    let x = part_of(w, 60);
    let base = part_of(h, 720) + px;
    let label = out.push(
        OpView::Text(
            if muted {
                "MUTE"@
            } else {
                "VOLUME"@
            },
            ink(px, x, base, hud, false),
        ),
    );
    lemma_segment_count(
        label,
        x + label_w,
        part_of(w, 22),
        base - part_of(px, 620),
        base,
        set_off(px),
        if muted {
            0
        } else {
            volume
        },
        hud,
        w,
        0,
    );
    lemma_seen(label, s);
    assert(s[out.len() as int] == label[out.len() as int]);
    assert forall|k: int| 0 <= k < out.len() implies #[trigger] s[k] == out[k] by {
        assert(s[k] == label[k]);
    }
}

proof fn lemma_seen(a: Seq<OpView>, s: Seq<OpView>)
    requires
        a.len() <= s.len(),
        s.take(a.len() as int) == a,
    ensures
        forall|k: int| 0 <= k < a.len() ==> #[trigger] s[k] == a[k],
{
    assert forall|k: int| 0 <= k < a.len() implies #[trigger] s[k] == a[k] by {
        assert(s.take(a.len() as int)[k] == s[k]);
    }
}

/// The legend is drawn over what is there already.
pub proof fn lemma_help_extends(out: Seq<OpView>, hud: u32, w: int, h: int)
    ensures
        ({
            let s = help_screen(out, hud, w, h);
            &&& s.len() > out.len()
            &&& forall|k: int| 0 <= k < out.len() ==> #[trigger] s[k] == out[k]
        }),
{
    let px = part_of(h, 36);
    let row = px * 1450 / 1000;
    let (x0, y0, x1) = (part_of(w, 120), part_of(h, 100), part_of(w, 880));
    let end = y0 + row * (HELP_LEN + 2) + part_of(h, 50);
    let y1 = if end > h {
        h
    } else {
        end
    };
    let lx = x0 + part_of(w, 30);
    let vx = x0 + part_of(w, 260);
    let b = y0 + part_of(h, 30) + px;
    let title = out.push(OpView::Tint(rect(x0, y0, x1, y1), GUIDE_BLUE, 0xE0)).push(
        OpView::Bevel(rect(x0, y0, x1, y1), 3, true),
    ).push(
        OpView::Text("REMOTE CONTROL"@, ink(px * 1250 / 1000, lx, b, GUIDE_YELLOW, false)),
    );
    lemma_help_rows_extend(title, px, row, lx, vx, b + row + row / 2, hud, HELP_LEN as int);
    let s = help_screen(out, hud, w, h);
    assert forall|k: int| 0 <= k < out.len() implies #[trigger] s[k] == out[k] by {
        assert(s[k] == title[k]);
    }
}

proof fn lemma_help_rows_extend(
    out: Seq<OpView>,
    px: int,
    row: int,
    lx: int,
    vx: int,
    b: int,
    hud: u32,
    n: int,
)
    ensures
        help_rows(out, px, row, lx, vx, b, hud, n).len() >= out.len(),
        forall|k: int|
            0 <= k < out.len() ==> #[trigger] help_rows(out, px, row, lx, vx, b, hud, n)[k]
                == out[k],
    decreases n,
{
    if n > 0 {
        lemma_help_rows_extend(out, px, row, lx, vx, b, hud, n - 1);
        let s = help_rows(out, px, row, lx, vx, b, hud, n);
        let t = help_rows(out, px, row, lx, vx, b, hud, n - 1);
        assert forall|k: int| 0 <= k < out.len() implies #[trigger] s[k] == out[k] by {
            assert(s[k] == t[k]);
        }
    }
}

/// The menu is drawn over what is there already.
pub proof fn lemma_menu_screen_extends(
    out: Seq<OpView>,
    s: SettingsView,
    sel: int,
    zip: Seq<char>,
    geocoding: bool,
    path: Seq<char>,
    label_w: int,
    hud: u32,
    w: int,
    h: int,
)
    ensures
        ({
            let r = menu_screen(out, s, sel, zip, geocoding, path, label_w, hud, w, h);
            &&& r.len() > out.len()
            &&& forall|k: int| 0 <= k < out.len() ==> #[trigger] r[k] == out[k]
        }),
{
    let px = part_of(h, 42);
    let row = px * 1550 / 1000;
    let lx = part_of(w, 140);
    let vx = part_of(w, 860);
    let b0 = part_of(h, 80) + px;
    let b = b0 + row + row / 2;
    let top = menu_top(sel);
    let title = out.push(OpView::Clear(0xFF_00_00_00)).push(
        OpView::Text("SET UP MENU"@, ink(px * 1300 / 1000, lx, b0, GUIDE_WHITE, false)),
    );
    let above = if top > 0 {
        title.push(OpView::Text("^"@, ink(px, vx, b - row, GUIDE_GRAY, true)))
    } else {
        title
    };
    lemma_menu_extends(
        above,
        s,
        sel,
        zip,
        top,
        label_w,
        px,
        row,
        lx,
        vx,
        b,
        hud,
        MENU_ROWS as int,
    );
    let rows = menu_rows(
        above,
        s,
        sel,
        zip,
        top,
        label_w,
        px,
        row,
        lx,
        vx,
        b,
        hud,
        MENU_ROWS as int,
    );
    let r = menu_screen(out, s, sel, zip, geocoding, path, label_w, hud, w, h);
    assert forall|k: int| 0 <= k < out.len() implies #[trigger] r[k] == out[k] by {
        assert(r[k] == rows[k]);
        assert(rows[k] == above[k]);
    }
}

/// Every key of the legend has its own use behind it.
pub proof fn keys_are_used_for_what_they_are(i: int)
    requires
        0 <= i < HELP_LEN,
    ensures
        help_key(i) == "UP/DOWN"@ ==> help_use(i) == "CHANNEL +/-  (GUIDE: MOVE CURSOR)"@,
        help_key(i) == "LEFT/RIGHT"@ ==> help_use(i) == "CHANNEL +/-10"@,
        help_key(i) == "ENTER"@ ==> help_use(i) == "INFO BANNER / TUNE SELECTION"@,
        help_key(i) == "BACKSPACE"@ ==> help_use(i) == "RECALL LAST CHANNEL"@,
        help_key(i) == "+ / -"@ ==> help_use(i) == "VOLUME"@,
        help_key(i) == "M"@ ==> help_use(i) == "MUTE"@,
        help_key(i) == "G"@ ==> help_use(i) == "INTERACTIVE GUIDE (AGAIN: CLOSE)"@,
        help_key(i) == "S"@ ==> help_use(i) == "SET UP MENU"@,
        help_key(i) == "C"@ ==> help_use(i) == "CRT TUBE"@,
        help_key(i) == "ESC"@ ==> help_use(i) == "POWER OFF"@,
{
    reveal_strlit("UP/DOWN");
    reveal_strlit("LEFT/RIGHT");
    reveal_strlit("0-9, ENTER");
    reveal_strlit("ENTER");
    reveal_strlit("BACKSPACE");
    reveal_strlit("+ / -");
    reveal_strlit("M");
    reveal_strlit("G");
    reveal_strlit("S");
    reveal_strlit("C");
    reveal_strlit("H / F1");
    reveal_strlit("ESC");
    assert("UP/DOWN"@[0] == 'U' && "LEFT/RIGHT"@[0] == 'L' && "0-9, ENTER"@[0] == '0');
    assert("ENTER"@[0] == 'E' && "ENTER"@.len() == 5 && "ESC"@[0] == 'E' && "ESC"@.len() == 3);
    assert("BACKSPACE"@[0] == 'B' && "+ / -"@[0] == '+' && "H / F1"@[0] == 'H');
    assert("M"@[0] == 'M' && "G"@[0] == 'G' && "S"@[0] == 'S' && "C"@[0] == 'C');
}

/// The line under the menu tells of a restart on the row that needs one and on no other, and on the
/// row of the ZIP code, and there alone, whether one is being looked up.
pub proof fn the_hint_goes_with_the_row(sel: int)
    ensures
        sel != MENU_ZIP ==> (menu_hint(sel, false)[0] == '*' <==> needs_restart(sel)),
        sel != MENU_ZIP ==> menu_hint(sel, true) == menu_hint(sel, false),
        sel == MENU_ZIP ==> menu_hint(sel, true)[0] == 'L' && menu_hint(sel, false)[0] == 'T',
{
    reveal_strlit("LOOKING UP ZIP...");
    reveal_strlit("TYPE 5 DIGITS, ENTER TO APPLY   BACKSPACE DELETES");
    reveal_strlit("* TAKES EFFECT AT NEXT START");
    reveal_strlit("UP/DOWN SELECT   LEFT/RIGHT CHANGE   S EXIT");
}

} // verus!
