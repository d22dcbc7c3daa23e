//! What the presenter works out around its textures: sizes, row pitches, the picture read back.

use vstd::prelude::*;
use crate::text::{decimal, decimal_chars};

verus! {

// ---------------------------------------------------------------- set up

/// How the surface keeps its pixels.
#[derive(Clone, Copy, PartialEq, Eq, Structural, Debug)]
pub enum Surface {
    Bgra,
    Rgba,
    /// Whatever the surface offers first.
    First,
}

/// The surface's pixels: BGRA rather than RGBA rather than anything else.
pub fn pick_surface(bgra: bool, rgba: bool) -> (r: Surface)
    ensures
        r == (if bgra {
            Surface::Bgra
        } else if rgba {
            Surface::Rgba
        } else {
            Surface::First
        }),
{
    if bgra {
        Surface::Bgra
    } else if rgba {
        Surface::Rgba
    } else {
        Surface::First
    }
}

/// How a frame gets on screen.
#[derive(Clone, Copy, PartialEq, Eq, Structural, Debug)]
pub enum Mode {
    Immediate,
    Mailbox,
    Fifo,
}

/// Frames are paced here: never block in present if the driver allows it.
pub fn pick_mode(immediate: bool, mailbox: bool) -> (r: Mode)
    ensures
        r == (if immediate {
            Mode::Immediate
        } else if mailbox {
            Mode::Mailbox
        } else {
            Mode::Fifo
        }),
{
    if immediate {
        Mode::Immediate
    } else if mailbox {
        Mode::Mailbox
    } else {
        Mode::Fifo
    }
}

/// The textures have to be made anew: the window has a size, and another one.
pub fn needs_resize(old_size: (u32, u32), size: (u32, u32)) -> (r: bool)
    ensures
        r == (size.0 != 0 && size.1 != 0 && size != old_size),
{
    size.0 != 0 && size.1 != 0 && !(size.0 == old_size.0 && size.1 == old_size.1)
}

/// The smaller planes of a yuv420p picture: half of each side, rounded up.
pub fn chroma_size(w: u32, h: u32) -> (r: (u32, u32))
    ensures
        2 * r.0 - 1 <= w <= 2 * r.0,
        2 * r.1 - 1 <= h <= 2 * r.1,
{
    (w / 2 + w % 2, h / 2 + h % 2)
}

/// Dots on a line of the tube's picture of 480 lines, in the window's shape: 480 w / h, rounded
/// to the nearest.
pub fn tube_width(w: u32, h: u32) -> (r: u64)
    ensures
        ({
            let lines = if h == 0 {
                1
            } else {
                h as int
            };
            2 * (r * lines) <= 960 * w + lines < 2 * (r * lines) + 2 * lines
        }),
{
    let lines: u64 = if h == 0 { 1 } else { h as u64 };
    let n: u64 = 960 * w as u64 + lines;
    let r: u64 = n / (2 * lines);
    proof {
        let d: int = 2 * lines as int;
        let (n1, r1): (int, int) = (n as int, r as int);
        assert(r1 * d <= n1 < r1 * d + d) by (nonlinear_arith)
            requires
                d > 0,
                r1 == n1 / d,
        ;
        assert(r1 * d == 2 * (r1 * lines as int)) by (nonlinear_arith)
            requires
                d == 2 * lines as int,
        ;
    }
    r
}

// ---------------------------------------------------------------- uploads

/// The overlay is as large as the window.
pub fn is_overlay(len: usize, w: u32, h: u32) -> (r: bool)
    ensures
        r == (len == w * h),
{
    proof {
        assert(0 <= w * h <= 0xffff_ffff * 0xffff_ffff) by (nonlinear_arith)
            requires
                0 <= w <= 0xffff_ffff,
                0 <= h <= 0xffff_ffff,
        ;
    }
    len as u64 == w as u64 * h as u64
}

/// Bytes that a plane takes at least: all rows but the last in full, and the texels of the last.
pub open spec fn plane_needs(w: u32, h: u32, bpp: usize, stride: usize) -> int {
    stride * (h - 1) + w * bpp
}

/// How many bytes to hand over for `w` x `h` texels of `bpp` bytes each from rows `stride` bytes
/// apart, out of `len`. None: there are too few.
pub fn plane_len(w: u32, h: u32, bpp: usize, len: usize, stride: usize) -> (r: Option<usize>)
    requires
        h >= 1,
        stride * h <= usize::MAX,
        plane_needs(w, h, bpp, stride) <= usize::MAX,
    ensures
        r is None <==> len < plane_needs(w, h, bpp, stride),
        r matches Some(n) ==> {
            let most = if plane_needs(w, h, bpp, stride) >= stride * h {
                plane_needs(w, h, bpp, stride)
            } else {
                stride * h
            };
            n == (if most <= len {
                most
            } else {
                len as int
            })
        },
{
    proof {
        assert(0 <= stride * (h - 1) <= stride * h) by (nonlinear_arith)
            requires
                h >= 1,
                stride >= 0,
        ;
        assert(0 <= w * bpp) by (nonlinear_arith)
            requires
                w >= 0,
                bpp >= 0,
        ;
    }
    let needed: usize = stride * (h as usize - 1) + w as usize * bpp;
    if len < needed {
        return None;
    }
    let whole: usize = stride * h as usize;
    let most: usize = if needed >= whole { needed } else { whole };
    Some(if most <= len { most } else { len })
}

/// A plane with all its rows is handed over whole, and nothing after it.
pub proof fn whole_planes_go_whole(w: u32, h: u32, bpp: usize, stride: usize)
    requires
        h >= 1,
        w * bpp <= stride,
    ensures
        plane_needs(w, h, bpp, stride) <= stride * h,
{
    assert(stride * (h - 1) + stride == stride * h) by (nonlinear_arith);
}

// ---------------------------------------------------------------- reading back

/// Bytes from row to row in a buffer that a picture is copied to: a multiple of 256.
pub fn padded_pitch(w: u32) -> (r: u32)
    requires
        w * 4 + 255 <= u32::MAX,
    ensures
        r % 256 == 0,
        w * 4 <= r < w * 4 + 256,
{
    (w * 4 + 255) / 256 * 256
}

/// The byte that stands at `c` of a BGRA pixel, in a pixel that may be RGBA.
pub open spec fn channel_at(c: int, bgra: bool) -> int {
    if bgra || c % 2 == 1 {
        c
    } else {
        2 - c
    }
}

/// The picture in rows `pitch` bytes apart, as BGRA rows that follow each other.
pub open spec fn unpadded(data: Seq<u8>, w: nat, h: nat, pitch: nat, bgra: bool) -> Seq<u8> {
    Seq::new(
        h * (4 * w),
        |i: int|
            {
                let y = i / (4 * w) as int;
                let at = i % (4 * w) as int;
                data[y * pitch + at - at % 4 + channel_at(at % 4, bgra)]
            },
    )
}

/// The picture that was copied to a buffer, as BGRA rows that follow each other.
pub fn unpad(data: &Vec<u8>, w: u32, h: u32, pitch: u32, bgra: bool) -> (r: Vec<u8>)
    requires
        4 * w <= pitch,
        pitch * h <= data@.len(),
    ensures
        r@ == unpadded(data@, w as nat, h as nat, pitch as nat, bgra),
{
    let ghost want = unpadded(data@, w as nat, h as nat, pitch as nat, bgra);
    let total: usize = data.len();
    proof {
        assert(0 <= 4 * w * h <= pitch * h) by (nonlinear_arith)
            requires
                4 * w <= pitch,
                h >= 0,
                w >= 0,
        ;
        assert(0 <= h * (4 * w)) by (nonlinear_arith)
            requires
                h >= 0,
                w >= 0,
        ;
    }
    let mut out: Vec<u8> = Vec::new();
    let mut y: u32 = 0;
    assert(0 * (4 * w) == 0);
    while y < h
        invariant
            y <= h,
            want == unpadded(data@, w as nat, h as nat, pitch as nat, bgra),
            4 * w <= pitch,
            pitch * h <= data@.len(),
            data@.len() == total,
            out@.len() == y * (4 * w),
            want.len() == h * (4 * w),
            y * (4 * w) <= want.len(),
            out@ =~= want.take(y * (4 * w)),
        decreases h - y,
    {
        proof {
            assert(0 <= y * pitch <= pitch * h - pitch) by (nonlinear_arith)
                requires
                    0 <= y < h,
                    pitch >= 0,
            ;
            assert((y + 1) * (4 * w) == y * (4 * w) + 4 * w) by (nonlinear_arith);
            assert((y + 1) * (4 * w) <= h * (4 * w)) by (nonlinear_arith)
                requires
                    y + 1 <= h,
                    w >= 0,
            ;
            assert(pitch * h <= total);
        }
        let row: usize = y as usize * pitch as usize;
        let mut x: u32 = 0;
        while x < w
            invariant
                x <= w,
                y < h,
                want == unpadded(data@, w as nat, h as nat, pitch as nat, bgra),
                4 * w <= pitch,
                pitch * h <= data@.len(),
                row == y * pitch,
                row + pitch <= data@.len(),
                data@.len() == total,
                out@.len() == y * (4 * w) + 4 * x,
                want.len() == h * (4 * w),
                y * (4 * w) + 4 * w <= want.len(),
                out@ =~= want.take(y * (4 * w) + 4 * x),
            decreases w - x,
        {
            let at: usize = row + 4 * x as usize;
            let ghost before = out@;
            let ghost n: int = y * (4 * w) + 4 * x;
            let (b, r): (u8, u8) = if bgra {
                (data[at], data[at + 2])
            } else {
                (data[at + 2], data[at])
            };
            out.push(b);
            out.push(data[at + 1]);
            out.push(r);
            out.push(data[at + 3]);
            proof {
                assert forall|k: int| 0 <= k < 4 implies #[trigger] want[n + k] == out@[n + k] by {
                    let d: int = 4 * w as int;
                    let m: int = 4 * x + k;
                    assert((y * d + m) / d == y && (y * d + m) % d == m) by (nonlinear_arith)
                        requires
                            0 <= m < d,
                            y >= 0,
                    ;
                    assert(n + k == y * d + m);
                    assert((4 * w as nat) as int == d);
                    assert(m % 4 == k);
                }
                assert(want.take(n + 4) =~= before + seq![want[n], want[n + 1], want[n + 2], want[
                    n + 3]]) by {
                    assert(before =~= want.take(n));
                }
                assert(want[n + 0] == out@[n]);
                assert(out@ =~= want.take(n + 4));
            }
            x += 1;
        }
        y += 1;
    }
    assert(want.take(h * (4 * w)) =~= want);
    out
}

/// The characters of an ASCII text as bytes.
pub open spec fn ascii_bytes(s: Seq<char>) -> Seq<u8> {
    Seq::new(s.len(), |i: int| s[i] as u8)
}

/// The header of a portable pixmap.
pub open spec fn ppm_header(w: nat, h: nat) -> Seq<char> {
    "P6\n"@ + decimal(w) + seq![' '] + decimal(h) + "\n255\n"@
}

/// A BGRA picture as RGB bytes.
pub open spec fn rgb_of(bgra: Seq<u8>) -> Seq<u8> {
    Seq::new(3 * (bgra.len() / 4), |i: int| bgra[4 * (i / 3) + (2 - i % 3)])
}

fn push_ascii(out: &mut Vec<u8>, v: &Vec<char>)
    ensures
        final(out)@ == old(out)@ + ascii_bytes(v@),
{
    let mut i: usize = 0;
    while i < v.len()
        invariant
            i <= v@.len(),
            out@ =~= old(out)@ + ascii_bytes(v@.take(i as int)),
        decreases v.len() - i,
    {
        out.push(v[i] as u8);
        proof {
            assert(ascii_bytes(v@.take(i + 1)) =~= ascii_bytes(v@.take(i as int)).push(v@[i as int] as u8));
        }
        i += 1;
    }
    assert(v@.take(i as int) =~= v@);
}

/// A BGRA picture as a portable pixmap.
pub fn ppm(w: u32, h: u32, bgra: &Vec<u8>) -> (r: Vec<u8>)
    ensures
        r@ == ascii_bytes(ppm_header(w as nat, h as nat)) + rgb_of(bgra@),
{
    let mut head: Vec<char> = vec!['P', '6', '\n'];
    let mut wd = decimal_chars(w as u64);
    let mut hd = decimal_chars(h as u64);
    let mut tail: Vec<char> = vec!['\n', '2', '5', '5', '\n'];
    head.append(&mut wd);
    head.push(' ');
    head.append(&mut hd);
    head.append(&mut tail);
    proof {
        reveal_strlit("P6\n");
        reveal_strlit("\n255\n");
        assert(head@ =~= ppm_header(w as nat, h as nat));
    }
    let mut out: Vec<u8> = Vec::new();
    push_ascii(&mut out, &head);
    let ghost start = out@;
    let ghost want = rgb_of(bgra@);
    let len: usize = bgra.len();
    let n: usize = len / 4;
    let mut i: usize = 0;
    while i < n
        invariant
            i <= n,
            len == bgra@.len(),
            n == len / 4,
            want == rgb_of(bgra@),
            out@ =~= start + want.take(3 * i),
        decreases n - i,
    {
        let ghost before = out@;
        out.push(bgra[4 * i + 2]);
        out.push(bgra[4 * i + 1]);
        out.push(bgra[4 * i]);
        proof {
            let k: int = 3 * i;
            assert(want[k] == bgra@[4 * i + 2]);
            assert(want[k + 1] == bgra@[4 * i + 1]);
            assert(want[k + 2] == bgra@[4 * i as int]);
            assert(want.take(k + 3) =~= want.take(k) + seq![want[k], want[k + 1], want[k + 2]]);
        }
        i += 1;
    }
    assert(want.take(3 * i as int) =~= want);
    assert(out@ =~= start + want);
    out
}

// ---------------------------------------------------------------- what is read back

/// The picture that is read back has every pixel where it was, row by row without the padding: blue,
/// green, red and opacity, whichever order the surface keeps them in.
pub proof fn pixels_are_read_back(
    data: Seq<u8>,
    w: nat,
    h: nat,
    pitch: nat,
    bgra: bool,
    x: int,
    y: int,
)
    requires
        0 <= x < w,
        0 <= y < h,
    ensures
        ({
            let out = unpadded(data, w, h, pitch, bgra);
            let at = y * (4 * w) + 4 * x;
            let from = y * pitch + 4 * x;
            &&& out.len() == h * (4 * w)
            &&& 0 <= at && at + 3 < out.len()
            &&& out[at + 1] == data[from + 1]
            &&& out[at + 3] == data[from + 3]
            &&& bgra ==> out[at] == data[from] && out[at + 2] == data[from + 2]
            &&& !bgra ==> out[at] == data[from + 2] && out[at + 2] == data[from]
        }),
{
    let row = 4 * w as int;
    let at = y * row + 4 * x;
    assert(0 <= y * row && (y + 1) * row <= h * row) by (nonlinear_arith)
        requires
            0 <= y < h,
            row >= 0,
    ;
    assert((y + 1) * row == y * row + row) by (nonlinear_arith);
    vstd::arithmetic::div_mod::lemma_fundamental_div_mod_converse(at, row, y, 4 * x);
    vstd::arithmetic::div_mod::lemma_fundamental_div_mod_converse(at + 1, row, y, 4 * x + 1);
    vstd::arithmetic::div_mod::lemma_fundamental_div_mod_converse(at + 2, row, y, 4 * x + 2);
    vstd::arithmetic::div_mod::lemma_fundamental_div_mod_converse(at + 3, row, y, 4 * x + 3);
}

/// A pixmap has red, green and blue of every pixel, in this order, from a picture that has them the
/// other way round and with an opacity.
pub proof fn pixmaps_turn_the_colours_round(bgra: Seq<u8>, i: int)
    requires
        0 <= i < bgra.len() as int / 4,
    ensures
        ({
            let rgb = rgb_of(bgra);
            &&& rgb.len() == 3 * (bgra.len() / 4)
            &&& rgb[3 * i] == bgra[4 * i + 2]
            &&& rgb[3 * i + 1] == bgra[4 * i + 1]
            &&& rgb[3 * i + 2] == bgra[4 * i]
        }),
{
}

} // verus!
