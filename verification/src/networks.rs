//! Networks: their logos, and how each channel dresses its picture.

use vstd::prelude::*;
use crate::library::{clean_name, cleaned};
use crate::order::{
    key_texts, lcg, lcg_next, lemma_permuted_numbers, lemma_same_elements, numbers, shuffle,
    shuffled, shuffling_moves_alike, shuffling_permutes, sort_by, sort_indices, sorting_is_stable,
    steps_on, text_lt, text_order_is_total,
};
use crate::text::{chars_of, lowercase, same_chars, texts, to_lowercase};

verus! {

/// A picture of `w` by `h` pixels, four bytes each: red, green, blue, opacity.
pub struct Logo {
    pub w: u32,
    pub h: u32,
    pub rgba: Vec<u8>,
}

#[verifier::ext_equal]
pub struct LogoView {
    pub w: u32,
    pub h: u32,
    pub rgba: Seq<u8>,
}

impl View for Logo {
    type V = LogoView;

    open spec fn view(&self) -> LogoView {
        LogoView { w: self.w, h: self.h, rgba: self.rgba@ }
    }
}

impl LogoView {
    /// There are four bytes for every pixel.
    pub open spec fn wf(self) -> bool {
        self.rgba.len() == self.w * self.h * 4
    }
}

pub struct Network {
    pub name: String,  // display name, e.g. "MTV"
    pub logo: Option<Logo>,
}

#[verifier::ext_equal]
pub struct NetworkView {
    pub name: Seq<char>,
    pub logo: Option<LogoView>,
}

impl View for Network {
    type V = NetworkView;

    open spec fn view(&self) -> NetworkView {
        NetworkView {
            name: self.name@,
            logo: match self.logo {
                Some(l) => Some(l@),
                None => None,
            },
        }
    }
}

pub open spec fn net_views(v: Seq<Network>) -> Seq<NetworkView> {
    v.map_values(|n: Network| n@)
}

/// How a channel dresses its picture. Fixed per channel number.
#[derive(Clone, Copy, PartialEq, Eq, Structural, Debug)]
pub struct ChanStyle {
    pub net: usize,
    pub bug: u8,  // 0 none, 1 bottom right, 2 bottom left, 3 top left
    pub bug_alpha: u8,
    pub clock: bool,
    pub ticker: bool,
    pub ticker_color: u32,
}

// ---------------------------------------------------------------- pictures

/// A decoded picture: width, height, the PNG colour type and the samples.
pub struct Frame {
    pub w: u32,
    pub h: u32,
    pub color: u8,
    pub data: Vec<u8>,
}

/// Samples per pixel of a PNG colour type: 0 grey, 2 RGB, 4 grey and opacity, 6 RGB and opacity.
pub open spec fn samples(color: u8) -> int {
    if color == 6 {
        4
    } else if color == 2 {
        3
    } else if color == 4 {
        2
    } else {
        1
    }
}

/// What `png::Decoder` makes of the bytes of a PNG file, at eight bits per sample: width, height,
/// colour type and the samples of the first frame. None where they are no such file.
pub uninterp spec fn png_frame(bytes: Seq<u8>) -> Option<(u32, u32, u8, Seq<u8>)>;

pub open spec fn frame_parts(f: Frame) -> (u32, u32, u8, Seq<u8>) {
    (f.w, f.h, f.color, f.data@)
}

/// `png::Decoder` with `normalize_to_color8`, `read_info` and `next_frame` on the bytes of a file:
/// a function of the bytes alone. The buffer that it fills is as long as the whole image takes, at
/// one byte per sample, and no frame is larger than the image.
#[verifier::external_body]
fn decode_png(bytes: &Vec<u8>) -> (r: Option<Frame>)
    ensures
        match r {
            Some(f) => png_frame(bytes@) == Some(frame_parts(f)),
            None => png_frame(bytes@) is None,
        },
        r matches Some(f) ==> f.w * f.h * samples(f.color) <= f.data@.len(),
{
    let mut dec = png::Decoder::new(std::io::Cursor::new(bytes.as_slice()));
    dec.set_transformations(png::Transformations::normalize_to_color8());
    let mut reader = dec.read_info().ok()?;
    let mut data = vec![0; reader.output_buffer_size()?];
    let info = reader.next_frame(&mut data).ok()?;
    Some(Frame { w: info.width, h: info.height, color: info.color_type as u8, data })
}

/// Byte `j` of pixel `i` as red, green, blue and opacity.
pub open spec fn rgba_byte(color: u8, data: Seq<u8>, i: int, j: int) -> u8 {
    if color == 6 {
        data[i * 4 + j]
    } else if color == 2 {
        if j == 3 {
            255
        } else {
            data[i * 3 + j]
        }
    } else if color == 4 {
        if j == 3 {
            data[i * 2 + 1]
        } else {
            data[i * 2]
        }
    } else if j == 3 {
        255
    } else {
        data[i]
    }
}

/// The first `n` pixels of a frame, four bytes each.
pub open spec fn rgba_of(color: u8, data: Seq<u8>, n: nat) -> Seq<u8> {
    Seq::new(n * 4, |k: int| rgba_byte(color, data, k / 4, k % 4))
}

/// The picture that a decoded frame is: grey is spread over the three colours, and what has no
/// opacity is opaque. None for a palette.
pub open spec fn picture(f: Option<(u32, u32, u8, Seq<u8>)>) -> Option<LogoView> {
    match f {
        Some((w, h, color, data)) => if color == 6 || color == 2 || color == 4 || color == 0 {
            Some(LogoView { w, h, rgba: rgba_of(color, data, (w * h) as nat) })
        } else {
            None
        },
        None => None,
    }
}

pub open spec fn logo_view(l: Option<Logo>) -> Option<LogoView> {
    match l {
        Some(l) => Some(l@),
        None => None,
    }
}

/// The picture of a decoded frame.
pub fn frame_picture(f: &Frame) -> (r: Option<Logo>)
    requires
        f.w * f.h * samples(f.color) <= f.data@.len(),
    ensures
        logo_view(r) == picture(Some(frame_parts(*f))),
        r matches Some(l) ==> l@.wf(),
{
    if !(f.color == 6 || f.color == 2 || f.color == 4 || f.color == 0) {
        return None;
    }
    let ghost total: int = f.w * f.h;
    proof {
        assert(0 <= f.w * f.h <= 0xffff_ffff * 0xffff_ffff) by (nonlinear_arith)
            requires
                0 <= f.w <= 0xffff_ffff,
                0 <= f.h <= 0xffff_ffff,
        ;
        let k = samples(f.color);
        assert(total <= total * k) by (nonlinear_arith)
            requires
                k >= 1,
                total >= 0,
        ;
    }
    let len: usize = f.data.len();
    let n: usize = (f.w as u64 * f.h as u64) as usize;
    let mut out: Vec<u8> = Vec::new();
    let ghost want = rgba_of(f.color, f.data@, n as nat);
    let mut i: usize = 0;
    while i < n
        invariant
            i <= n,
            n == total == f.w * f.h,
            total * samples(f.color) <= f.data@.len() == len,
            f.color == 6 || f.color == 2 || f.color == 4 || f.color == 0,
            want == rgba_of(f.color, f.data@, n as nat),
            out@ == want.take(i * 4),
        decreases n - i,
    {
        let d = &f.data;
        proof {
            let k = samples(f.color);
            assert((i + 1) * k <= total * k) by (nonlinear_arith)
                requires
                    i + 1 <= total,
                    k >= 1,
            ;
            assert((i + 1) * k == i * k + k) by (nonlinear_arith);
        }
        let (a, b, c, o) = if f.color == 6 {
            (d[i * 4], d[i * 4 + 1], d[i * 4 + 2], d[i * 4 + 3])
        } else if f.color == 2 {
            (d[i * 3], d[i * 3 + 1], d[i * 3 + 2], 255u8)
        } else if f.color == 4 {
            (d[i * 2], d[i * 2], d[i * 2], d[i * 2 + 1])
        } else {
            (d[i], d[i], d[i], 255u8)
        };
        let ghost before = out@;
        out.push(a);
        out.push(b);
        out.push(c);
        out.push(o);
        proof {
            assert((i * 4) / 4 == i && (i * 4) % 4 == 0);
            assert((i * 4 + 1) / 4 == i && (i * 4 + 1) % 4 == 1);
            assert((i * 4 + 2) / 4 == i && (i * 4 + 2) % 4 == 2);
            assert((i * 4 + 3) / 4 == i && (i * 4 + 3) % 4 == 3);
            assert(want[i * 4] == a);
            assert(want[i * 4 + 1] == b);
            assert(want[i * 4 + 2] == c);
            assert(want[i * 4 + 3] == o);
            assert(out@ =~= want.take((i + 1) * 4));
        }
        i += 1;
    }
    assert(want.take(n * 4) =~= want);
    Some(Logo { w: f.w, h: f.h, rgba: out })
}

/// The picture in a PNG file.
pub fn load_logo(bytes: &Vec<u8>) -> (r: Option<Logo>)
    ensures
        logo_view(r) == picture(png_frame(bytes@)),
        r matches Some(l) ==> l@.wf(),
{
    match decode_png(bytes) {
        Some(f) => frame_picture(&f),
        None => None,
    }
}

/// The window's icon is a picture in colour: a grey one does not count.
pub open spec fn icon_of(f: Option<(u32, u32, u8, Seq<u8>)>) -> Option<LogoView> {
    match f {
        Some(p) => if p.2 == 6 || p.2 == 2 {
            picture(f)
        } else {
            None
        },
        None => None,
    }
}

/// The app icon, from the bytes of its PNG file.
pub fn window_icon(bytes: &Vec<u8>) -> (r: Option<Logo>)
    ensures
        logo_view(r) == icon_of(png_frame(bytes@)),
{
    match decode_png(bytes) {
        Some(f) => if f.color == 6 || f.color == 2 {
            frame_picture(&f)
        } else {
            None
        },
        None => None,
    }
}

// ---------------------------------------------------------------- the list of networks

/// A PNG file of a logo folder.
pub struct PngFile {
    pub stem: String,
    pub bytes: Vec<u8>,
}

/// One of the networks has this name, whatever its case.
pub open spec fn has_name(nets: Seq<NetworkView>, name: Seq<char>) -> bool {
    exists|i: int| 0 <= i < nets.len() && lowercase(#[trigger] nets[i].name) == lowercase(name)
}

/// `nets` and the network of one more logo file, if its name is new and its picture can be read.
pub open spec fn with_logo(nets: Seq<NetworkView>, stem: Seq<char>, bytes: Seq<u8>) -> Seq<
    NetworkView,
> {
    let name = cleaned(stem);
    let logo = picture(png_frame(bytes));
    if name.len() > 0 && !has_name(nets, name) && logo is Some {
        nets.push(NetworkView { name, logo })
    } else {
        nets
    }
}

/// The networks of a list of logo files, in their order.
pub open spec fn logo_networks(files: Seq<PngFile>) -> Seq<NetworkView>
    decreases files.len(),
{
    if files.len() == 0 {
        Seq::empty()
    } else {
        with_logo(logo_networks(files.drop_last()), files.last().stem@, files.last().bytes@)
    }
}

/// `nets` and a network without a logo for each further name.
pub open spec fn with_names(nets: Seq<NetworkView>, names: Seq<Seq<char>>) -> Seq<NetworkView>
    decreases names.len(),
{
    if names.len() == 0 {
        nets
    } else {
        let rest = with_names(nets, names.drop_last());
        let name = names.last();
        if name.len() > 0 && !has_name(rest, name) {
            rest.push(NetworkView { name, logo: None })
        } else {
            rest
        }
    }
}

pub open spec fn low_names(nets: Seq<NetworkView>) -> Seq<Seq<char>> {
    nets.map_values(|n: NetworkView| lowercase(n.name))
}

/// The seed of the order of the networks.
pub const NET_SEED: u64 = 0x10C0_5A11_7E1E_0001;

/// The order in which the networks are taken: by name, then shuffled.
pub open spec fn net_order(nets: Seq<NetworkView>) -> Seq<usize> {
    shuffled(sort_by(numbers(nets.len()), low_names(nets)), NET_SEED).0
}

/// The networks in the order in which the channels take them; one by the name of TUNER where
/// there are none.
pub open spec fn lined_up(nets: Seq<NetworkView>) -> Seq<NetworkView> {
    if nets.len() == 0 {
        seq![NetworkView { name: "TUNER"@, logo: None }]
    } else {
        net_order(nets).map_values(|i: usize| nets[i as int])
    }
}

/// Every logo has its pixels.
pub open spec fn logos_wf(nets: Seq<NetworkView>) -> bool {
    forall|i: int|
        0 <= i < nets.len() ==> ((#[trigger] nets[i]).logo matches Some(l) ==> l.wf())
}

proof fn lemma_net_order(nets: Seq<NetworkView>)
    requires
        nets.len() <= usize::MAX,
    ensures
        net_order(nets).len() == nets.len(),
        net_order(nets).no_duplicates(),
        forall|i: int| 0 <= i < nets.len() ==> #[trigger] net_order(nets)[i] < nets.len(),
{
    let s = numbers(nets.len());
    let sorted = sort_by(s, low_names(nets));
    sorting_is_stable(s, low_names(nets));
    shuffling_permutes(sorted, NET_SEED);
    lemma_permuted_numbers(net_order(nets), nets.len());
}

impl Logo {
    /// The same picture again.
    pub fn copy(&self) -> (r: Logo)
        ensures
            r@ == self@,
    {
        let rgba = self.rgba.clone();
        assert(rgba@ =~= self.rgba@);
        Logo { w: self.w, h: self.h, rgba }
    }
}

impl Network {
    /// The same network again.
    pub fn copy(&self) -> (r: Network)
        ensures
            r@ == self@,
    {
        let logo = match &self.logo {
            Some(l) => Some(l.copy()),
            None => None,
        };
        Network { name: self.name.clone(), logo }
    }
}

/// The lower-case names of networks, beside them.
pub open spec fn keys_of(keys: Seq<Vec<char>>, nets: Seq<Network>) -> bool {
    key_texts(keys) == low_names(net_views(nets))
}

fn knows_key(keys: &Vec<Vec<char>>, key: &Vec<char>) -> (r: bool)
    ensures
        r == exists|i: int| 0 <= i < keys@.len() && #[trigger] keys@[i]@ == key@,
{
    let mut i: usize = 0;
    while i < keys.len()
        invariant
            i <= keys@.len(),
            forall|j: int| 0 <= j < i ==> #[trigger] keys@[j]@ != key@,
        decreases keys@.len() - i,
    {
        if same_chars(&keys[i], key) {
            return true;
        }
        i += 1;
    }
    false
}

fn low_key(name: &str) -> (r: Vec<char>)
    ensures
        r@ == lowercase(name@),
{
    let low = to_lowercase(name);
    chars_of(low.as_str())
}

/// Adds a network whose name is not known yet, and its key; returns whether it was.
fn add_network(
    nets: &mut Vec<Network>,
    keys: &mut Vec<Vec<char>>,
    name: String,
    logo: Option<Logo>,
) -> (r: bool)
    requires
        keys_of(old(keys)@, old(nets)@),
    ensures
        keys_of(final(keys)@, final(nets)@),
        r == !has_name(net_views(old(nets)@), name@),
        !r ==> final(nets)@ == old(nets)@,
        r ==> net_views(final(nets)@) == net_views(old(nets)@).push(
            NetworkView { name: name@, logo: logo_view(logo) },
        ),
{
    let ghost before = net_views(nets@);
    let ghost kt = key_texts(keys@);
    assert(kt.len() == keys@.len() && low_names(before).len() == before.len());
    let key = low_key(name.as_str());
    if knows_key(keys, &key) {
        proof {
            let i = choose|i: int| 0 <= i < keys@.len() && #[trigger] keys@[i]@ == key@;
            assert(kt[i] == keys@[i]@);
            assert(low_names(before)[i] == lowercase(before[i].name));
            assert(has_name(before, name@));
        }
        return false;
    }
    proof {
        if has_name(before, name@) {
            let i = choose|i: int|
                0 <= i < before.len() && lowercase(#[trigger] before[i].name) == lowercase(name@);
            assert(low_names(before)[i] == key@);
            assert(kt[i] == keys@[i]@);
        }
    }
    keys.push(key);
    let net = Network { name, logo };
    let ghost view = net@;
    nets.push(net);
    proof {
        assert(net_views(nets@) =~= before.push(view));
        assert(key_texts(keys@) =~= kt.push(key@));
        assert(low_names(net_views(nets@)) =~= low_names(before).push(key@));
    }
    true
}

/// Networks from the PNG files of the logo folders, plus ident folders that have no logo. Order is
/// a fixed shuffle so channel N is the same network every run (given the same folders).
pub fn load_networks(files: &Vec<PngFile>, bumper_names: &Vec<String>) -> (r: Vec<Network>)
    ensures
        net_views(r@) == lined_up(with_names(logo_networks(files@), texts(bumper_names@))),
        r@.len() > 0,
        logos_wf(net_views(r@)),
{
    let mut nets: Vec<Network> = Vec::new();
    let mut keys: Vec<Vec<char>> = Vec::new();
    let mut i: usize = 0;
    proof {
        assert(net_views(nets@) =~= logo_networks(files@.take(0)));
        assert(key_texts(keys@) =~= low_names(net_views(nets@)));
    }
    while i < files.len()
        invariant
            i <= files@.len(),
            net_views(nets@) == logo_networks(files@.take(i as int)),
            keys_of(keys@, nets@),
            logos_wf(net_views(nets@)),
        decreases files@.len() - i,
    {
        proof {
            let next = files@.take(i + 1);
            assert(next.drop_last() =~= files@.take(i as int));
            assert(next.last() == files@[i as int]);
        }
        let name = clean_name(files[i].stem.as_str());
        if !name.as_str().is_empty() {
            if let Some(logo) = load_logo(&files[i].bytes) {
                let added = add_network(&mut nets, &mut keys, name, Some(logo));
            }
        }
        i += 1;
    }
    let ghost logos = net_views(nets@);
    let ghost names = texts(bumper_names@);
    assert(files@.take(files@.len() as int) =~= files@);
    let mut k: usize = 0;
    assert(names.take(0) =~= Seq::empty());
    while k < bumper_names.len()
        invariant
            k <= bumper_names@.len(),
            names == texts(bumper_names@),
            net_views(nets@) == with_names(logos, names.take(k as int)),
            keys_of(keys@, nets@),
            logos_wf(net_views(nets@)),
        decreases bumper_names@.len() - k,
    {
        proof {
            let next = names.take(k + 1);
            assert(next.drop_last() =~= names.take(k as int));
            assert(next.last() == bumper_names@[k as int]@);
        }
        if !bumper_names[k].as_str().is_empty() {
            let added = add_network(&mut nets, &mut keys, bumper_names[k].clone(), None);
        }
        k += 1;
    }
    assert(names.take(names.len() as int) =~= names);
    let ghost found = net_views(nets@);
    let mut order: Vec<usize> = Vec::new();
    let mut j: usize = 0;
    let count: usize = nets.len();
    while j < count
        invariant
            j <= count,
            order@ =~= numbers(j as nat),
        decreases count - j,
    {
        order.push(j);
        j += 1;
    }
    proof {
        assert(key_texts(keys@).len() == keys@.len());
        assert(low_names(found).len() == found.len());
    }
    let mut order = sort_indices(&order, &keys);
    let end = shuffle(&mut order, NET_SEED);
    proof {
        lemma_net_order(found);
        assert(order@ == net_order(found));
    }
    let mut out: Vec<Network> = Vec::new();
    let mut m: usize = 0;
    while m < order.len()
        invariant
            m <= order@.len() == found.len(),
            found == net_views(nets@),
            logos_wf(found),
            order@ == net_order(found),
            forall|x: int| 0 <= x < order@.len() ==> #[trigger] order@[x] < found.len(),
            net_views(out@) =~= order@.take(m as int).map_values(|x: usize| found[x as int]),
        decreases order@.len() - m,
    {
        let ghost before = net_views(out@);
        assert(net_views(nets@).len() == nets@.len());
        let net = nets[order[m]].copy();
        out.push(net);
        proof {
            assert(net_views(out@) =~= before.push(found[order@[m as int] as int]));
            assert(order@.take(m + 1) =~= order@.take(m as int).push(order@[m as int]));
        }
        m += 1;
    }
    assert(order@.take(order@.len() as int) =~= order@);
    assert(net_views(out@).len() == out@.len());
    if out.len() == 0 {
        out.push(Network { name: "TUNER".to_owned(), logo: None });
        assert(net_views(out@) =~= lined_up(found));
    }
    out
}

/// No two networks of the list have the same name, whatever its case.
pub open spec fn distinctly_named(nets: Seq<NetworkView>) -> bool {
    forall|i: int, j: int|
        0 <= i < j < nets.len() ==> lowercase(#[trigger] nets[i].name) != lowercase(
            #[trigger] nets[j].name,
        )
}

proof fn lemma_logo_networks_distinct(files: Seq<PngFile>)
    ensures
        distinctly_named(logo_networks(files)),
    decreases files.len(),
{
    if files.len() > 0 {
        lemma_logo_networks_distinct(files.drop_last());
    }
}

proof fn lemma_with_names_distinct(nets: Seq<NetworkView>, names: Seq<Seq<char>>)
    requires
        distinctly_named(nets),
    ensures
        distinctly_named(with_names(nets, names)),
    decreases names.len(),
{
    if names.len() > 0 {
        lemma_with_names_distinct(nets, names.drop_last());
    }
}

/// As many networks are lined up as were found, if any were.
proof fn lemma_lined_up_len(nets: Seq<NetworkView>)
    ensures
        nets.len() > 0 ==> lined_up(nets).len() == nets.len(),
{
    let s = numbers(nets.len());
    sorting_is_stable(s, low_names(nets));
    shuffling_permutes(sort_by(s, low_names(nets)), NET_SEED);
}

/// "FOX (US)" and "FOX" collapse to one network: no two networks on the list have the same name,
/// whatever its case.
pub proof fn networks_are_distinct(files: Seq<PngFile>, names: Seq<Seq<char>>, r: Vec<Network>)
    requires
        net_views(r@) == lined_up(with_names(logo_networks(files), names)),
    ensures
        distinctly_named(net_views(r@)),
{
    let nets = with_names(logo_networks(files), names);
    assert(net_views(r@).len() == r.len());
    lemma_lined_up_len(nets);
    lemma_logo_networks_distinct(files);
    lemma_with_names_distinct(logo_networks(files), names);
    lemma_net_order(nets);
}

proof fn lemma_with_names(nets: Seq<NetworkView>, names: Seq<Seq<char>>)
    requires
        distinct_names(names),
    ensures
        forall|v: NetworkView| #[trigger]
            with_names(nets, names).contains(v) <==> nets.contains(v) || (v.logo is None
                && v.name.len() > 0 && names.contains(v.name) && !has_name(nets, v.name)),
    decreases names.len(),
{
    if names.len() > 0 {
        let t = names.drop_last();
        let name = names.last();
        let rest = with_names(nets, t);
        let all = with_names(nets, names);
        assert forall|i: int, j: int| 0 <= i < j < t.len() implies lowercase(#[trigger] t[i])
            != lowercase(#[trigger] t[j]) by {
            assert(names[i] == t[i] && names[j] == t[j]);
        }
        lemma_with_names(nets, t);
        assert(has_name(rest, name) == has_name(nets, name)) by {
            if has_name(rest, name) {
                let i = choose|i: int|
                    0 <= i < rest.len() && lowercase(#[trigger] rest[i].name) == lowercase(name);
                assert(rest.contains(rest[i]));
                if nets.contains(rest[i]) {
                    let k = choose|k: int| 0 <= k < nets.len() && nets[k] == rest[i];
                    assert(lowercase(nets[k].name) == lowercase(name));
                } else {
                    let k = choose|k: int| 0 <= k < t.len() && t[k] == rest[i].name;
                    assert(names[k] == t[k]);
                    assert(lowercase(names[k]) != lowercase(names[names.len() - 1]));
                }
            }
            if has_name(nets, name) {
                let i = choose|i: int|
                    0 <= i < nets.len() && lowercase(#[trigger] nets[i].name) == lowercase(name);
                assert(nets.contains(nets[i]));
                assert(rest.contains(nets[i]));
                let k = choose|k: int| 0 <= k < rest.len() && rest[k] == nets[i];
                assert(lowercase(rest[k].name) == lowercase(name));
            }
        }
        assert forall|v: NetworkView| #[trigger] all.contains(v) <==> nets.contains(v) || (
        v.logo is None && v.name.len() > 0 && names.contains(v.name) && !has_name(
            nets,
            v.name,
        )) by {
            assert(rest.contains(v) <==> nets.contains(v) || (v.logo is None && v.name.len() > 0
                && t.contains(v.name) && !has_name(nets, v.name)));
            assert(names.contains(v.name) <==> t.contains(v.name) || v.name == name) by {
                if names.contains(v.name) {
                    let i = choose|i: int| 0 <= i < names.len() && names[i] == v.name;
                    if i < t.len() {
                        assert(t[i] == v.name);
                    }
                }
                if t.contains(v.name) {
                    let i = choose|i: int| 0 <= i < t.len() && t[i] == v.name;
                    assert(names[i] == v.name);
                }
                assert(names[names.len() - 1] == name);
            }
            if name.len() > 0 && !has_name(rest, name) {
                let new = NetworkView { name, logo: None };
                assert(all == rest.push(new));
                if all.contains(v) {
                    let i = choose|i: int| 0 <= i < all.len() && all[i] == v;
                    if i < rest.len() {
                        assert(rest[i] == v);
                    }
                }
                if rest.contains(v) {
                    let i = choose|i: int| 0 <= i < rest.len() && rest[i] == v;
                    assert(all[i] == v);
                }
                assert(all[rest.len() as int] == new);
                if v.logo is None && v.name == name {
                    assert(v == new);
                }
            }
        }
    }
}

/// No two of the names are the same, whatever their case.
pub open spec fn distinct_names(names: Seq<Seq<char>>) -> bool {
    forall|i: int, j: int|
        0 <= i < j < names.len() ==> lowercase(#[trigger] names[i]) != lowercase(#[trigger] names[j])
}

/// Each network comes before the next by its lower-case name.
pub open spec fn by_name(nets: Seq<NetworkView>) -> bool {
    forall|i: int, j: int|
        0 <= i < j < nets.len() ==> text_lt(
            lowercase((#[trigger] nets[i]).name),
            lowercase((#[trigger] nets[j]).name),
        )
}

/// Networks in the order of their names are told by which they are.
proof fn lemma_by_name_is_unique(a: Seq<NetworkView>, b: Seq<NetworkView>)
    requires
        by_name(a),
        by_name(b),
        forall|v: NetworkView| #[trigger] a.contains(v) <==> b.contains(v),
    ensures
        a == b,
    decreases a.len(),
{
    if a.len() == 0 {
        if b.len() > 0 {
            assert(b.contains(b[0]));
            assert(a.contains(b[0]));
        }
        assert(a =~= b);
    } else {
        let x = a.last();
        assert(a.contains(a[a.len() - 1]));
        assert(b.contains(x));
        let j = choose|j: int| 0 <= j < b.len() && b[j] == x;
        let y = b.last();
        assert(b.contains(b[b.len() - 1]));
        assert(a.contains(y));
        let i = choose|i: int| 0 <= i < a.len() && a[i] == y;
        if j < b.len() - 1 {
            assert(text_lt(lowercase(b[j].name), lowercase(b[b.len() - 1].name)));
            text_order_is_total(lowercase(x.name), lowercase(y.name));
            if i < a.len() - 1 {
                assert(text_lt(lowercase(a[i].name), lowercase(a[a.len() - 1].name)));
            }
        }
        assert(x == y);
        let (p, q) = (a.drop_last(), b.drop_last());
        text_order_is_total(lowercase(x.name), lowercase(x.name));
        assert forall|v: NetworkView| #[trigger] p.contains(v) <==> q.contains(v) by {
            if p.contains(v) {
                let k = choose|k: int| 0 <= k < p.len() && p[k] == v;
                assert(a[k] == v);
                assert(text_lt(lowercase(a[k].name), lowercase(a[a.len() - 1].name)));
                assert(a.contains(v));
                let m = choose|m: int| 0 <= m < b.len() && b[m] == v;
                assert(q[m] == v);
            }
            if q.contains(v) {
                let k = choose|k: int| 0 <= k < q.len() && q[k] == v;
                assert(b[k] == v);
                assert(text_lt(lowercase(b[k].name), lowercase(b[b.len() - 1].name)));
                assert(b.contains(v) && a.contains(v));
                let m = choose|m: int| 0 <= m < a.len() && a[m] == v;
                assert(p[m] == v);
            }
        }
        assert(by_name(p)) by {
            assert forall|i: int, j: int| 0 <= i < j < p.len() implies text_lt(
                lowercase((#[trigger] p[i]).name),
                lowercase((#[trigger] p[j]).name),
            ) by {
                assert(a[i] == p[i] && a[j] == p[j]);
            }
        }
        assert(by_name(q)) by {
            assert forall|i: int, j: int| 0 <= i < j < q.len() implies text_lt(
                lowercase((#[trigger] q[i]).name),
                lowercase((#[trigger] q[j]).name),
            ) by {
                assert(b[i] == q[i] && b[j] == q[j]);
            }
        }
        lemma_by_name_is_unique(p, q);
        assert(a =~= p.push(x));
        assert(b =~= q.push(y));
    }
}

/// Networks sorted by name stand in the order of their names, and are the same ones.
proof fn lemma_sorted_networks(nets: Seq<NetworkView>)
    requires
        distinctly_named(nets),
        nets.len() <= usize::MAX,
    ensures
        ({
            let s = sort_by(numbers(nets.len()), low_names(nets));
            let t = s.map_values(|i: usize| nets[i as int]);
            &&& s.len() == nets.len()
            &&& forall|i: int| 0 <= i < s.len() ==> #[trigger] s[i] < nets.len()
            &&& by_name(t)
            &&& forall|v: NetworkView| #[trigger] t.contains(v) <==> nets.contains(v)
        }),
{
    let keys = low_names(nets);
    let s = sort_by(numbers(nets.len()), keys);
    let t = s.map_values(|i: usize| nets[i as int]);
    sorting_is_stable(numbers(nets.len()), keys);
    lemma_permuted_numbers(s, nets.len());
    assert forall|i: int, j: int| 0 <= i < j < t.len() implies text_lt(
        lowercase((#[trigger] t[i]).name),
        lowercase((#[trigger] t[j]).name),
    ) by {
        let (a, b) = (s[i] as int, s[j] as int);
        assert(a != b);
        assert(!text_lt(keys[s[j] as int], keys[s[i] as int]));
        assert(lowercase(nets[a].name) != lowercase(nets[b].name));
        text_order_is_total(keys[a], keys[b]);
    }
    assert forall|v: NetworkView| #[trigger] t.contains(v) <==> nets.contains(v) by {
        if t.contains(v) {
            let i = choose|i: int| 0 <= i < t.len() && t[i] == v;
            assert(nets[s[i] as int] == v);
        }
        if nets.contains(v) {
            let k = choose|k: int| 0 <= k < nets.len() && nets[k] == v;
            assert(s.contains(k as usize));
            let i = choose|i: int| 0 <= i < s.len() && s[i] == k as usize;
            assert(t[i] == v);
        }
    }
}

/// The same networks are lined up alike, in whatever order they were found.
proof fn lemma_lined_up_alike(a: Seq<NetworkView>, b: Seq<NetworkView>)
    requires
        distinctly_named(a),
        distinctly_named(b),
        a.len() <= usize::MAX,
        b.len() <= usize::MAX,
        forall|v: NetworkView| #[trigger] a.contains(v) <==> b.contains(v),
    ensures
        lined_up(a) == lined_up(b),
{
    let s = sort_by(numbers(a.len()), low_names(a));
    let t = sort_by(numbers(b.len()), low_names(b));
    let x = s.map_values(|i: usize| a[i as int]);
    let y = t.map_values(|i: usize| b[i as int]);
    lemma_sorted_networks(a);
    lemma_sorted_networks(b);
    assert forall|v: NetworkView| #[trigger] x.contains(v) <==> y.contains(v) by {
        assert(x.contains(v) <==> a.contains(v));
        assert(y.contains(v) <==> b.contains(v));
    }
    lemma_by_name_is_unique(x, y);
    assert(s.len() == x.len() && t.len() == y.len());
    assert forall|k: int| 0 <= k < s.len() implies a[#[trigger] s[k] as int] == b[t[k] as int] by {
        assert(x[k] == a[s[k] as int]);
        assert(y[k] == b[t[k] as int]);
    }
    shuffling_moves_alike(s, t, a, b, NET_SEED);
    assert(lined_up(a) =~= lined_up(b));
}

/// Two lists of logo files hold the same pictures under the same names.
pub open spec fn same_pictures(a: Seq<PngFile>, b: Seq<PngFile>) -> bool {
    a.len() == b.len() && forall|i: int|
        0 <= i < a.len() ==> (#[trigger] a[i]).stem@ == (#[trigger] b[i]).stem@ && a[i].bytes@
            == b[i].bytes@
}

proof fn lemma_logos_alike(a: Seq<PngFile>, b: Seq<PngFile>)
    requires
        same_pictures(a, b),
    ensures
        logo_networks(a) == logo_networks(b),
    decreases a.len(),
{
    if a.len() > 0 {
        let (p, q) = (a.drop_last(), b.drop_last());
        assert forall|i: int| 0 <= i < p.len() implies (#[trigger] p[i]).stem@ == (
        #[trigger] q[i]).stem@ && p[i].bytes@ == q[i].bytes@ by {
            assert(a[i] == p[i] && b[i] == q[i]);
        }
        lemma_logos_alike(p, q);
        let k = a.len() - 1;
        assert(a[k].stem@ == b[k].stem@ && a[k].bytes@ == b[k].bytes@);
    }
}

/// Channel N is the same network every run, given the same folders: the networks and their order
/// do not depend on the order in which the ident folders are named.
pub proof fn networks_do_not_depend_on_the_order_of_names(
    files1: Seq<PngFile>,
    files2: Seq<PngFile>,
    names1: Seq<Seq<char>>,
    names2: Seq<Seq<char>>,
    r1: Vec<Network>,
    r2: Vec<Network>,
)
    requires
        same_pictures(files1, files2),
        names1.to_multiset() == names2.to_multiset(),
        distinct_names(names1),
        net_views(r1@) == lined_up(with_names(logo_networks(files1), names1)),
        net_views(r2@) == lined_up(with_names(logo_networks(files2), names2)),
    ensures
        net_views(r1@) == net_views(r2@),
{
    lemma_logos_alike(files1, files2);
    lemma_same_elements(names2, names1);
    let logos = logo_networks(files1);
    assert(names1.no_duplicates());
    assert forall|i: int, j: int| 0 <= i < j < names2.len() implies lowercase(#[trigger] names2[i])
        != lowercase(#[trigger] names2[j]) by {
        assert(names2.contains(names2[i]) && names2.contains(names2[j]));
        let a = choose|a: int| 0 <= a < names1.len() && names1[a] == names2[i];
        let b = choose|b: int| 0 <= b < names1.len() && names1[b] == names2[j];
        assert(a != b);
        if a < b {
            assert(lowercase(names1[a]) != lowercase(names1[b]));
        } else {
            assert(lowercase(names1[b]) != lowercase(names1[a]));
        }
    }
    lemma_logo_networks_distinct(files1);
    lemma_with_names_distinct(logos, names1);
    lemma_with_names_distinct(logos, names2);
    lemma_with_names(logos, names1);
    lemma_with_names(logos, names2);
    assert(net_views(r1@).len() == r1.len() && net_views(r2@).len() == r2.len());
    lemma_lined_up_len(with_names(logos, names1));
    lemma_lined_up_len(with_names(logos, names2));
    lemma_lined_up_alike(with_names(logos, names1), with_names(logos, names2));
}

// ---------------------------------------------------------------- channel styles

/// The generator state from which a channel's style is drawn.
pub open spec fn style_seed(ch: int) -> u64 {
    (((ch + 7) * 0x9E37_79B9_7F4A_7C15) % 0x1_0000_0000_0000_0000) as u64
}

/// A thousandth drawn from a generator state.
pub open spec fn permille(x: u64) -> int {
    x as int / 0x100_0000_0000 % 1000
}

/// The dressing of channel `ch`, hashed from its number.
pub open spec fn style_of(ch: int, n_nets: int) -> ChanStyle {
    let x1 = lcg(style_seed(ch));
    let x2 = lcg(x1);
    let x3 = lcg(x2);
    let x4 = lcg(x3);
    let x5 = lcg(x4);
    ChanStyle {
        net: ((if ch == 0 {
            0
        } else {
            ch - 1
        }) % (if n_nets == 0 {
            1
        } else {
            n_nets
        })) as usize,
        bug: if permille(x1) < 450 {
            1
        } else if permille(x1) < 550 {
            2
        } else if permille(x1) < 620 {
            3
        } else {
            0
        },
        bug_alpha: (0x70 + permille(x2) % 0x70) as u8,
        clock: permille(x3) < 250,
        ticker: permille(x4) < 200,
        ticker_color: if permille(x5) % 4 == 0 {
            0x00_a0_10_10
        } else if permille(x5) % 4 == 1 {
            0x00_10_30_a0
        } else if permille(x5) % 4 == 2 {
            0x00_20_20_20
        } else {
            0x00_80_10_60
        },
    }
}

fn thousandth(x: u64) -> (r: u64)
    ensures
        r == permille(x),
        r < 1000,
{
    x / 0x100_0000_0000 % 1000
}

fn make_style(ch: usize, n_nets: usize) -> (r: ChanStyle)
    requires
        ch + 7 <= usize::MAX,
    ensures
        r == style_of(ch as int, n_nets as int),
{
    let seed = (ch as u64 + 7).wrapping_mul(0x9E37_79B9_7F4A_7C15);
    let x1 = lcg_next(seed);
    let x2 = lcg_next(x1);
    let x3 = lcg_next(x2);
    let x4 = lcg_next(x3);
    let x5 = lcg_next(x4);
    let bug_r = thousandth(x1);
    let color_r = thousandth(x5) % 4;
    ChanStyle {
        net: (if ch == 0 { 0 } else { ch - 1 }) % (if n_nets == 0 { 1 } else { n_nets }),
        bug: if bug_r < 450 {
            1
        } else if bug_r < 550 {
            2
        } else if bug_r < 620 {
            3
        } else {
            0
        },
        bug_alpha: (0x70 + thousandth(x2) % 0x70) as u8,
        clock: thousandth(x3) < 250,
        ticker: thousandth(x4) < 200,
        ticker_color: if color_r == 0 {
            0x00_a0_10_10
        } else if color_r == 1 {
            0x00_10_30_a0
        } else if color_r == 2 {
            0x00_20_20_20
        } else {
            0x00_80_10_60
        },
    }
}

/// Per-channel dressing, hashed from the channel number. Index 0 (guide) is a dummy.
pub fn make_styles(n_channels: usize, n_nets: usize) -> (r: Vec<ChanStyle>)
    requires
        n_channels + 8 <= usize::MAX,
    ensures
        r@ == Seq::new((n_channels + 1) as nat, |ch: int| style_of(ch, n_nets as int)),
{
    let mut out: Vec<ChanStyle> = Vec::new();
    let mut ch: usize = 0;
    while ch <= n_channels
        invariant
            ch <= n_channels + 1,
            n_channels + 8 <= usize::MAX,
            out@ =~= Seq::new(ch as nat, |c: int| style_of(c, n_nets as int)),
        decreases n_channels + 1 - ch,
    {
        out.push(make_style(ch, n_nets));
        ch += 1;
    }
    out
}

/// The dressing is fixed per channel number, whatever the number of channels; the network too,
/// given the same number of networks.
pub proof fn dressing_is_fixed_per_channel(
    m: nat,
    p: int,
    n: nat,
    q: int,
    a: Seq<ChanStyle>,
    b: Seq<ChanStyle>,
    ch: int,
)
    requires
        a == Seq::new((m + 1) as nat, |c: int| style_of(c, p)),
        b == Seq::new((n + 1) as nat, |c: int| style_of(c, q)),
        0 <= ch <= m,
        ch <= n,
    ensures
        a[ch].bug == b[ch].bug,
        a[ch].bug_alpha == b[ch].bug_alpha,
        a[ch].clock == b[ch].clock,
        a[ch].ticker == b[ch].ticker,
        a[ch].ticker_color == b[ch].ticker_color,
        p == q ==> a[ch].net == b[ch].net,
{
}

/// Every channel's network is on the list, and its bug stands in a corner or nowhere.
pub proof fn styles_fit_the_networks(ch: int, n_nets: int)
    requires
        0 <= ch,
        0 < n_nets <= usize::MAX,
    ensures
        style_of(ch, n_nets).net < n_nets,
        style_of(ch, n_nets).bug <= 3,
        0x70 <= style_of(ch, n_nets).bug_alpha < 0xe0,
{
    vstd::arithmetic::div_mod::lemma_mod_bound(
        if ch == 0 {
            0
        } else {
            ch - 1
        },
        n_nets,
    );
}

// ---------------------------------------------------------------- what the networks are

/// Every logo file whose picture can be read, and whose name says something, has a network of its
/// name; and every network comes from such a file and has its picture.
pub proof fn logos_make_networks(files: Seq<PngFile>)
    ensures
        forall|i: int|
            0 <= i < files.len() && cleaned((#[trigger] files[i]).stem@).len() > 0 && picture(
                png_frame(files[i].bytes@),
            ) is Some ==> has_name(logo_networks(files), cleaned(files[i].stem@)),
        forall|v: NetworkView| #[trigger]
            logo_networks(files).contains(v) ==> exists|i: int|
                0 <= i < files.len() && cleaned((#[trigger] files[i]).stem@) == v.name && picture(
                    png_frame(files[i].bytes@),
                ) == v.logo && v.logo is Some,
    decreases files.len(),
{
    let nets = logo_networks(files);
    if files.len() > 0 {
        let rest = files.drop_last();
        let before = logo_networks(rest);
        logos_make_networks(rest);
        let f = files.last();
        let name = cleaned(f.stem@);
        let v = NetworkView { name, logo: picture(png_frame(f.bytes@)) };
        let adds = name.len() > 0 && !has_name(before, name) && v.logo is Some;
        assert(adds ==> nets == before.push(v));
        assert forall|x: Seq<char>| has_name(before, x) implies has_name(nets, x) by {
            let j = choose|j: int|
                0 <= j < before.len() && lowercase(#[trigger] before[j].name) == lowercase(x);
            assert(nets[j].name == before[j].name);
        }
        if adds {
            assert(nets[before.len() as int].name == name);
            assert(has_name(nets, name));
        }
        assert forall|i: int|
            0 <= i < files.len() && cleaned((#[trigger] files[i]).stem@).len() > 0 && picture(
                png_frame(files[i].bytes@),
            ) is Some implies has_name(nets, cleaned(files[i].stem@)) by {
            if i < rest.len() {
                assert(rest[i] == files[i]);
            }
        }
        assert forall|u: NetworkView| #[trigger] nets.contains(u) implies exists|i: int|
            0 <= i < files.len() && cleaned((#[trigger] files[i]).stem@) == u.name && picture(
                png_frame(files[i].bytes@),
            ) == u.logo && u.logo is Some by {
            let j = choose|j: int| 0 <= j < nets.len() && nets[j] == u;
            if j < before.len() {
                assert(before[j] == u);
                assert(before.contains(u));
                let i = choose|i: int|
                    0 <= i < rest.len() && cleaned((#[trigger] rest[i]).stem@) == u.name && picture(
                        png_frame(rest[i].bytes@),
                    ) == u.logo && u.logo is Some;
                assert(files[i] == rest[i]);
            } else {
                assert(files[files.len() - 1] == f);
            }
        }
    }
}

/// Ident folders add networks without a logo behind those that have one: every folder that is called
/// something has a network of its name, and the others are as they were.
pub proof fn ident_folders_add_networks(nets: Seq<NetworkView>, names: Seq<Seq<char>>)
    ensures
        with_names(nets, names).len() >= nets.len(),
        with_names(nets, names).take(nets.len() as int) == nets,
        forall|i: int|
            0 <= i < names.len() && (#[trigger] names[i]).len() > 0 ==> has_name(
                with_names(nets, names),
                names[i],
            ),
        forall|i: int|
            nets.len() <= i < with_names(nets, names).len() ==> (#[trigger] with_names(
                nets,
                names,
            )[i]).logo is None && names.contains(with_names(nets, names)[i].name),
    decreases names.len(),
{
    let all = with_names(nets, names);
    if names.len() > 0 {
        let rest = names.drop_last();
        let before = with_names(nets, rest);
        ident_folders_add_networks(nets, rest);
        let name = names.last();
        assert(all.take(nets.len() as int) =~= before.take(nets.len() as int));
        assert forall|x: Seq<char>| has_name(before, x) implies has_name(all, x) by {
            let j = choose|j: int|
                0 <= j < before.len() && lowercase(#[trigger] before[j].name) == lowercase(x);
            assert(all[j].name == before[j].name);
        }
        if name.len() > 0 && !has_name(before, name) {
            assert(all[before.len() as int].name == name);
        }
        assert forall|i: int| 0 <= i < names.len() && (#[trigger] names[i]).len() > 0 implies has_name(
            all,
            names[i],
        ) by {
            if i < rest.len() {
                assert(rest[i] == names[i]);
            }
        }
        assert forall|i: int| nets.len() <= i < all.len() implies (#[trigger] all[i]).logo is None
            && names.contains(all[i].name) by {
            if i < before.len() {
                assert(before[i] == all[i]);
                assert(rest.contains(before[i].name));
                let j = choose|j: int| 0 <= j < rest.len() && rest[j] == before[i].name;
                assert(names[j] == all[i].name);
            } else {
                assert(names[names.len() - 1] == all[i].name);
            }
        }
    } else {
        assert(all.take(nets.len() as int) =~= nets);
    }
}

/// All networks are lined up, each once, and none is added, unless there is none at all: then it is
/// one by the name of TUNER.
pub proof fn every_network_is_lined_up(nets: Seq<NetworkView>, i: int) -> (k: int)
    requires
        nets.len() <= usize::MAX,
        0 <= i < nets.len() || nets.len() == 0,
    ensures
        nets.len() > 0 ==> lined_up(nets).len() == nets.len() && 0 <= k < nets.len() && lined_up(
            nets,
        )[k] == nets[i],
        nets.len() == 0 ==> lined_up(nets).len() == 1 && lined_up(nets)[0].name == "TUNER"@
            && lined_up(nets)[0].logo is None,
{
    if nets.len() > 0 {
        let order = net_order(nets);
        lemma_net_order(nets);
        let sorted = sort_by(numbers(nets.len()), low_names(nets));
        sorting_is_stable(numbers(nets.len()), low_names(nets));
        lemma_same_elements(sorted, numbers(nets.len()));
        shuffling_permutes(sorted, NET_SEED);
        lemma_same_elements(order, sorted);
        assert(numbers(nets.len())[i] == i);
        assert(numbers(nets.len()).contains(i as usize));
        assert(order.contains(i as usize));
        let k = choose|k: int| 0 <= k < order.len() && order[k] == i as usize;
        k
    } else {
        0
    }
}

/// The channels take the networks in turn: the first channel the first, each the one behind that of
/// the channel before it, and after the last the first again.
pub proof fn channels_take_the_networks_in_turn(ch: int, n_nets: int)
    requires
        1 <= ch,
        0 < n_nets <= usize::MAX,
    ensures
        style_of(1, n_nets).net == 0,
        style_of(ch + 1, n_nets).net == (if style_of(ch, n_nets).net + 1 == n_nets {
            0
        } else {
            style_of(ch, n_nets).net + 1
        }),
{
    let (x, q) = (ch - 1, (ch - 1) / n_nets);
    let r = x % n_nets;
    vstd::arithmetic::div_mod::lemma_fundamental_div_mod(x, n_nets);
    vstd::arithmetic::div_mod::lemma_mod_bound(x, n_nets);
    vstd::arithmetic::div_mod::lemma_small_mod(0, n_nets as nat);
    if r + 1 < n_nets {
        assert(x + 1 == q * n_nets + (r + 1)) by (nonlinear_arith)
            requires
                x == n_nets * q + r,
        ;
        vstd::arithmetic::div_mod::lemma_fundamental_div_mod_converse(x + 1, n_nets, q, r + 1);
    } else {
        assert(x + 1 == (q + 1) * n_nets + 0) by (nonlinear_arith)
            requires
                x == n_nets * q + r,
                r + 1 == n_nets,
        ;
        vstd::arithmetic::div_mod::lemma_fundamental_div_mod_converse(x + 1, n_nets, q + 1, 0);
    }
}

/// Each part of a channel's dressing has a draw of its own, from the generator's steps behind the
/// channel's seed: of a thousand, 450 have the bug at the bottom right, the next 100 at the bottom
/// left, the next 70 at the top left and the rest none; 250 have the clock and 200 the ticker.
pub proof fn each_part_of_the_dressing_has_its_draw(ch: int, n_nets: int)
    ensures
        ({
            let p = |k: nat| permille(steps_on(style_seed(ch), k));
            let s = style_of(ch, n_nets);
            &&& s.bug == 1 <==> 0 <= p(1) < 450
            &&& s.bug == 2 <==> 450 <= p(1) < 550
            &&& s.bug == 3 <==> 550 <= p(1) < 620
            &&& s.bug == 0 <==> 620 <= p(1)
            &&& s.bug_alpha == 112 + p(2) % 112
            &&& s.clock <==> p(3) < 250
            &&& s.ticker <==> p(4) < 200
        }),
{
    reveal_with_fuel(steps_on, 6);
    let x = style_seed(ch);
    assert(steps_on(x, 1) == lcg(x));
    assert(steps_on(x, 2) == lcg(lcg(x)));
    assert(steps_on(x, 3) == lcg(lcg(lcg(x))));
    assert(steps_on(x, 4) == lcg(lcg(lcg(lcg(x)))));
}

/// A picture keeps its pixels: in colour every one has its own red, green and blue, in grey all three
/// are the grey; the opacity is the pixel's own, and where the file has none it is full.
pub proof fn pictures_keep_their_pixels(w: u32, h: u32, color: u8, data: Seq<u8>, i: int)
    requires
        color == 0 || color == 2 || color == 4 || color == 6,
        0 <= i < w * h,
    ensures
        ({
            let p = picture(Some((w, h, color, data)));
            let rgba = p->0.rgba;
            let n = samples(color);
            &&& p is Some && p->0.w == w && p->0.h == h
            &&& rgba.len() == w * h * 4
            &&& color == 2 || color == 6 ==> rgba[4 * i] == data[n * i] && rgba[4 * i + 1] == data[n
                * i + 1] && rgba[4 * i + 2] == data[n * i + 2]
            &&& color == 0 || color == 4 ==> rgba[4 * i] == data[n * i] && rgba[4 * i + 1] == data[n
                * i] && rgba[4 * i + 2] == data[n * i]
            &&& color == 4 || color == 6 ==> rgba[4 * i + 3] == data[n * i + n - 1]
            &&& color == 0 || color == 2 ==> rgba[4 * i + 3] == 255
        }),
{
    let n = (w * h) as nat;
    assert(w * h >= 0) by (nonlinear_arith);
    assert(4 * i + 3 < n * 4);
    assert((4 * i) / 4 == i && (4 * i) % 4 == 0);
    assert((4 * i + 1) / 4 == i && (4 * i + 1) % 4 == 1);
    assert((4 * i + 2) / 4 == i && (4 * i + 2) % 4 == 2);
    assert((4 * i + 3) / 4 == i && (4 * i + 3) % 4 == 3);
}

/// A picture with a sample for each of the three colours is an icon, as it is; one with less is none.
pub proof fn an_icon_is_in_colour(w: u32, h: u32, color: u8, data: Seq<u8>)
    requires
        color == 0 || color == 2 || color == 4 || color == 6,
    ensures
        samples(color) >= 3 ==> icon_of(Some((w, h, color, data))) == picture(
            Some((w, h, color, data)),
        ),
        samples(color) < 3 ==> icon_of(Some((w, h, color, data))) is None,
{
}

/// The states from which the styles are drawn are the same step apart from channel to channel, round
/// the circle of 64 bits, seven steps from its beginning at channel 0.
pub proof fn styles_are_a_step_apart(ch: int)
    ensures
        style_seed(ch + 1) == (style_seed(ch) + 0x9E37_79B9_7F4A_7C15) % 0x1_0000_0000_0000_0000,
        style_seed(-7) == 0,
{
    let g = 0x9E37_79B9_7F4A_7C15int;
    let m = 0x1_0000_0000_0000_0000int;
    vstd::arithmetic::div_mod::lemma_mod_bound((ch + 7) * g, m);
    vstd::arithmetic::div_mod::lemma_mod_bound((ch + 1 + 7) * g, m);
    assert((ch + 1 + 7) * g == (ch + 7) * g + g);
    vstd::arithmetic::div_mod::lemma_add_mod_noop((ch + 7) * g, g, m);
    vstd::arithmetic::div_mod::lemma_small_mod(g as nat, m as nat);
}

/// What is drawn from a state is one of a thousand, by its upper 24 bits alone, and they take turns.
pub proof fn thousandths_take_turns(x: u64, y: u64)
    ensures
        0 <= permille(x) < 1000,
        x / 0x100_0000_0000 == y / 0x100_0000_0000 ==> permille(x) == permille(y),
        x / 0x100_0000_0000 + 1 == y / 0x100_0000_0000 ==> permille(y) == (permille(x) + 1) % 1000,
        x < 0x100_0000_0000 ==> permille(x) == 0,
{
}

/// The colour behind the headlines is one of four, by the fifth draw: red, blue, grey or purple.
pub proof fn the_headlines_have_one_of_four_colours(ch: int, n_nets: int)
    ensures
        ({
            let p = permille(steps_on(style_seed(ch), 5));
            let c = style_of(ch, n_nets).ticker_color as int;
            let (r, g, b) = (c / 65536, c / 256 % 256, c % 256);
            &&& p % 4 == 0 ==> r > 2 * g && r > 2 * b
            &&& p % 4 == 1 ==> b > 2 * g && b > 2 * r
            &&& p % 4 == 2 ==> r == g == b
            &&& p % 4 == 3 ==> r > b > 2 * g
        }),
{
    reveal_with_fuel(steps_on, 6);
    let x = style_seed(ch);
    assert(steps_on(x, 5) == lcg(lcg(lcg(lcg(lcg(x))))));
}

} // verus!
