//! Dealing the library out: which files each channel plays, and in what order.

use vstd::prelude::*;
use crate::library::{clean_name, cleaned, text_of, FileInfo};
use crate::networks::{ChanStyle, Network};
use crate::order::{
    a_shuffle_takes_its_steps, dedup, dedup_indices, draw, draw_from, every_number_is_drawn,
    is_sorted_by, key_texts, lcg, lcg_next, lemma_same_elements, shuffle, shuffled,
    shuffling_permutes, sort_by, sort_indices, sorting_is_stable, steps_add_up, steps_on, text_lt,
};
use crate::schedule::{run_time, Program, Schedule};
use crate::text::{chars_of, lowercase, same_chars, same_text, to_lowercase, trim, trimmed};

verus! {

/// A lineup channel with files of its own.
pub struct Manual {
    pub channel: usize,
    pub files: Vec<usize>,
    pub shuffle: bool,
    pub idents: String,  // "" / "auto" | "off" | ident folder name
}

// ---------------------------------------------------------------- station idents

/// The idents among the first `n` files.
pub open spec fn ident_files(files: Seq<FileInfo>, n: int) -> Seq<usize>
    decreases n,
{
    if n <= 0 {
        Seq::empty()
    } else if files[n - 1].bumper {
        ident_files(files, n - 1).push((n - 1) as usize)
    } else {
        ident_files(files, n - 1)
    }
}

/// The network folder that a file came from: its cleaned name in lower case.
pub open spec fn folder_key(f: FileInfo) -> Seq<char> {
    match f.folder {
        Some(s) => lowercase(cleaned(s@)),
        None => lowercase(Seq::empty()),
    }
}

/// The idents among the first `n` files that came from the folder `key`.
pub open spec fn folder_idents(files: Seq<FileInfo>, n: int, key: Seq<char>) -> Seq<usize>
    decreases n,
{
    if n <= 0 {
        Seq::empty()
    } else if files[n - 1].bumper && folder_key(files[n - 1]) == key {
        folder_idents(files, n - 1, key).push((n - 1) as usize)
    } else {
        folder_idents(files, n - 1, key)
    }
}

/// The idents for the folder `key`: its own where it has any, else all.
pub open spec fn ident_pool(files: Seq<FileInfo>, key: Seq<char>) -> Seq<usize> {
    let own = folder_idents(files, files.len() as int, key);
    if own.len() > 0 {
        own
    } else {
        ident_files(files, files.len() as int)
    }
}

/// The lineup's entry for channel `ch`.
pub open spec fn entry_for(manual: Seq<Manual>, ch: int) -> Option<Manual>
    decreases manual.len(),
{
    if manual.len() == 0 {
        None
    } else if manual.last().channel == ch {
        Some(manual.last())
    } else {
        entry_for(manual.drop_last(), ch)
    }
}

/// The folder of channel `ch`'s own network.
pub open spec fn network_folder(styles: Seq<ChanStyle>, nets: Seq<Network>, ch: int) -> Seq<char> {
    if ch < styles.len() {
        lowercase(cleaned(nets[styles[ch].net as int].name@))
    } else {
        Seq::empty()
    }
}

/// The lineup's wish is for a folder by name: it is neither empty nor "auto" nor "off".
pub open spec fn names_folder(wish: Seq<char>) -> bool {
    let word = lowercase(trimmed(wish));
    word.len() > 0 && word != "auto"@ && word != "off"@
}

/// How well a file's folder fits the name `wish` of a folder: 3 if that is its name, 2 if so but for
/// white space around it and the case of letters, 1 if the cleaned names are the same, 0 if not.
pub open spec fn fit(f: FileInfo, wish: Seq<char>) -> int {
    if text_of(f.folder) == Some(wish) {
        3
    } else if f.folder matches Some(s) && lowercase(trimmed(s@)) == lowercase(trimmed(wish)) {
        2
    } else if folder_key(f) == lowercase(cleaned(trimmed(wish))) {
        1
    } else {
        0
    }
}

/// How well those of the idents among the first `n` files fit that fit `wish` best.
pub open spec fn best_fit(files: Seq<FileInfo>, n: int, wish: Seq<char>) -> int
    decreases n,
{
    if n <= 0 {
        0
    } else {
        let rest = best_fit(files, n - 1, wish);
        if files[n - 1].bumper && fit(files[n - 1], wish) > rest {
            fit(files[n - 1], wish)
        } else {
            rest
        }
    }
}

/// The idents among the first `n` files that fit `wish` so well.
pub open spec fn fitting(files: Seq<FileInfo>, n: int, wish: Seq<char>, how: int) -> Seq<usize>
    decreases n,
{
    if n <= 0 {
        Seq::empty()
    } else if files[n - 1].bumper && fit(files[n - 1], wish) == how {
        fitting(files, n - 1, wish, how).push((n - 1) as usize)
    } else {
        fitting(files, n - 1, wish, how)
    }
}

/// The idents for the folder that the lineup calls `wish`: those that fit the name best. Where none
/// fits at all, these are all.
pub open spec fn named_pool(files: Seq<FileInfo>, wish: Seq<char>) -> Seq<usize> {
    let n = files.len() as int;
    fitting(files, n, wish, best_fit(files, n, wish))
}

/// The idents that may follow a program on channel `ch`; none where no ident does. They are those
/// of the channel's own network unless the lineup names another folder.
pub open spec fn channel_pool(
    files: Seq<FileInfo>,
    manual: Seq<Manual>,
    styles: Seq<ChanStyle>,
    nets: Seq<Network>,
    ch: int,
) -> Option<Seq<usize>> {
    let own = ident_pool(files, network_folder(styles, nets, ch));
    if ident_files(files, files.len() as int).len() == 0 {
        None
    } else {
        match entry_for(manual, ch) {
            Some(m) => if names_folder(m.idents@) {
                Some(named_pool(files, m.idents@))
            } else if lowercase(trimmed(m.idents@)) == "off"@ {
                None
            } else {
                Some(own)
            },
            None => Some(own),
        }
    }
}

/// The pools of channels 1 to `n`.
pub open spec fn channel_pools(
    files: Seq<FileInfo>,
    manual: Seq<Manual>,
    styles: Seq<ChanStyle>,
    nets: Seq<Network>,
    n: nat,
) -> Seq<Option<Seq<usize>>> {
    Seq::new(n, |c: int| channel_pool(files, manual, styles, nets, c + 1))
}

// ---------------------------------------------------------------- the deal

/// Some lineup channel has file `f` for its own.
pub open spec fn is_pinned(manual: Seq<Manual>, f: int) -> bool {
    exists|k: int, i: int|
        0 <= k < manual.len() && 0 <= i < manual[k].files@.len() && #[trigger] manual[k].files@[i]
            == f
}

/// The programs among the first `n` files that no lineup channel has for its own.
pub open spec fn free_files(files: Seq<FileInfo>, manual: Seq<Manual>, n: int) -> Seq<usize>
    decreases n,
{
    if n <= 0 {
        Seq::empty()
    } else if !files[n - 1].bumper && !is_pinned(manual, n - 1) {
        free_files(files, manual, n - 1).push((n - 1) as usize)
    } else {
        free_files(files, manual, n - 1)
    }
}

/// The channels from 1 to `n` that the lineup leaves to the deal.
pub open spec fn auto_channels(manual: Seq<Manual>, n: int) -> Seq<usize>
    decreases n,
{
    if n <= 0 {
        Seq::empty()
    } else if entry_for(manual, n) is None {
        auto_channels(manual, n - 1).push(n as usize)
    } else {
        auto_channels(manual, n - 1)
    }
}

/// A playlist with one more program, and an ident behind it where the channel has any: the list
/// and the state of the generator.
pub open spec fn air(
    list: Seq<usize>,
    rng: u64,
    f: usize,
    pool: Option<Seq<usize>>,
) -> (Seq<usize>, u64) {
    match pool {
        Some(p) => {
            let r = lcg(rng);
            (list.push(f).push(p[draw(r) as int % (p.len() as int)]), r)
        },
        None => (list.push(f), rng),
    }
}

/// The playlists once the first `k` of `order` are dealt round the channels `auto`.
pub open spec fn dealt(
    n: nat,
    order: Seq<usize>,
    auto: Seq<usize>,
    pools: Seq<Option<Seq<usize>>>,
    rng: u64,
    k: int,
) -> (Seq<Seq<usize>>, u64)
    decreases k,
{
    if k <= 0 || auto.len() == 0 {
        (Seq::new(n, |c: int| Seq::empty()), rng)
    } else {
        let (lists, r) = dealt(n, order, auto, pools, rng, k - 1);
        let c = auto[(k - 1) % (auto.len() as int)] - 1;
        let (list, r2) = air(lists[c], r, order[k - 1], pools[c]);
        (lists.update(c, list), r2)
    }
}

/// A playlist with the first `k` of `items` added.
pub open spec fn aired(
    list: Seq<usize>,
    rng: u64,
    items: Seq<usize>,
    pool: Option<Seq<usize>>,
    k: int,
) -> (Seq<usize>, u64)
    decreases k,
{
    if k <= 0 {
        (list, rng)
    } else {
        let (l, r) = aired(list, rng, items, pool, k - 1);
        air(l, r, items[k - 1], pool)
    }
}

/// The lower-case paths of the files.
pub open spec fn low_paths(files: Seq<FileInfo>) -> Seq<Seq<char>> {
    files.map_values(|f: FileInfo| lowercase(f.path@))
}

/// The seed of a lineup channel's own shuffle.
pub open spec fn channel_seed(ch: int) -> u64 {
    let x = (ch * 0x9E37_79B9_7F4A_7C15) % 0x1_0000_0000_0000_0000;
    (if x % 2 == 0 {
        x + 1
    } else {
        x
    }) as u64
}

/// The programs of a lineup channel: alphabetical by path, or shuffled.
pub open spec fn own_programs(files: Seq<FileInfo>, m: Manual) -> Seq<usize> {
    let list = dedup(sort_by(m.files@, low_paths(files)));
    if m.shuffle {
        shuffled(list, channel_seed(m.channel as int)).0
    } else {
        list
    }
}

/// The playlists once the lineup channels up to `ch` have theirs, by ascending number.
pub open spec fn with_lineup(
    lists: Seq<Seq<usize>>,
    rng: u64,
    files: Seq<FileInfo>,
    manual: Seq<Manual>,
    pools: Seq<Option<Seq<usize>>>,
    ch: int,
) -> (Seq<Seq<usize>>, u64)
    decreases ch,
{
    if ch <= 0 {
        (lists, rng)
    } else {
        let (l, r) = with_lineup(lists, rng, files, manual, pools, ch - 1);
        match entry_for(manual, ch) {
            Some(m) => {
                let items = own_programs(files, m);
                let (list, r2) = aired(l[ch - 1], r, items, pools[ch - 1], items.len() as int);
                (l.update(ch - 1, list), r2)
            },
            None => (l, r),
        }
    }
}

/// The seed of the deal.
pub const DEAL_SEED: u64 = 0x5EED_CAB1_E700_0001;

/// The playlists of channels 1 to `n`.
pub open spec fn playlists(
    files: Seq<FileInfo>,
    n: nat,
    styles: Seq<ChanStyle>,
    nets: Seq<Network>,
    manual: Seq<Manual>,
) -> Seq<Seq<usize>> {
    let pools = channel_pools(files, manual, styles, nets, n);
    let (order, r) = shuffled(free_files(files, manual, files.len() as int), DEAL_SEED);
    let auto = auto_channels(manual, n as int);
    let (lists, r2) = dealt(n, order, auto, pools, r, order.len() as int);
    with_lineup(lists, r2, files, manual, pools, n as int).0
}

/// The lineup is one that channels 1 to `n` can have: every channel once, every file in the
/// library.
pub open spec fn lineup_fits(manual: Seq<Manual>, n: int, file_count: int) -> bool {
    &&& forall|k: int| 0 <= k < manual.len() ==> 1 <= (#[trigger] manual[k]).channel <= n
    &&& forall|k: int, l: int|
        0 <= k < l < manual.len() ==> (#[trigger] manual[k]).channel != (
        #[trigger] manual[l]).channel
    &&& forall|k: int, i: int|
        0 <= k < manual.len() && 0 <= i < manual[k].files@.len() ==> #[trigger] manual[k].files@[i]
            < file_count
}

/// Every style names one of the networks.
pub open spec fn styles_fit(styles: Seq<ChanStyle>, net_count: int) -> bool {
    forall|c: int| 0 <= c < styles.len() ==> (#[trigger] styles[c]).net < net_count
}

// ---------------------------------------------------------------- doing it

fn all_idents(files: &Vec<FileInfo>) -> (r: Vec<usize>)
    ensures
        r@ == ident_files(files@, files@.len() as int),
        forall|i: int| 0 <= i < r@.len() ==> #[trigger] r@[i] < files@.len(),
{
    let mut out: Vec<usize> = Vec::new();
    let mut i: usize = 0;
    while i < files.len()
        invariant
            i <= files@.len(),
            out@ == ident_files(files@, i as int),
            forall|j: int| 0 <= j < out@.len() ==> #[trigger] out@[j] < i,
        decreases files@.len() - i,
    {
        if files[i].bumper {
            out.push(i);
        }
        i += 1;
    }
    out
}

/// The folder keys of the files.
fn folder_keys(files: &Vec<FileInfo>) -> (r: Vec<Vec<char>>)
    ensures
        r@.len() == files@.len(),
        forall|i: int| 0 <= i < r@.len() ==> #[trigger] r@[i]@ == folder_key(files@[i]),
{
    let mut out: Vec<Vec<char>> = Vec::new();
    let mut i: usize = 0;
    while i < files.len()
        invariant
            i <= files@.len(),
            out@.len() == i,
            forall|j: int| 0 <= j < i ==> #[trigger] out@[j]@ == folder_key(files@[j]),
        decreases files@.len() - i,
    {
        let name = match &files[i].folder {
            Some(s) => clean_name(s.as_str()),
            None => String::new(),
        };
        let low = to_lowercase(name.as_str());
        assert(files@[i as int].folder is None ==> name@ =~= Seq::empty());
        out.push(chars_of(low.as_str()));
        i += 1;
    }
    out
}

fn pool_for(files: &Vec<FileInfo>, keys: &Vec<Vec<char>>, key: &str) -> (r: Vec<usize>)
    requires
        keys@.len() == files@.len(),
        forall|i: int| 0 <= i < keys@.len() ==> #[trigger] keys@[i]@ == folder_key(files@[i]),
    ensures
        r@ == ident_pool(files@, key@),
        forall|i: int| 0 <= i < r@.len() ==> #[trigger] r@[i] < files@.len(),
{
    let want = chars_of(key);
    let mut out: Vec<usize> = Vec::new();
    let mut i: usize = 0;
    while i < files.len()
        invariant
            i <= files@.len() == keys@.len(),
            want@ == key@,
            forall|j: int| 0 <= j < keys@.len() ==> #[trigger] keys@[j]@ == folder_key(files@[j]),
            out@ == folder_idents(files@, i as int, key@),
            forall|j: int| 0 <= j < out@.len() ==> #[trigger] out@[j] < i,
        decreases files@.len() - i,
    {
        if files[i].bumper && same_chars(&keys[i], &want) {
            out.push(i);
        }
        i += 1;
    }
    if out.len() > 0 {
        out
    } else {
        all_idents(files)
    }
}

fn find_entry(manual: &Vec<Manual>, ch: usize) -> (r: Option<usize>)
    ensures
        match r {
            Some(k) => k < manual@.len() && entry_for(manual@, ch as int) == Some(manual@[k as int]),
            None => entry_for(manual@, ch as int) is None,
        },
{
    let mut i: usize = manual.len();
    assert(manual@.take(i as int) =~= manual@);
    while i > 0
        invariant
            i <= manual@.len(),
            entry_for(manual@, ch as int) == entry_for(manual@.take(i as int), ch as int),
        decreases i,
    {
        assert(manual@.take(i as int).drop_last() =~= manual@.take(i - 1));
        if manual[i - 1].channel == ch {
            return Some(i - 1);
        }
        i -= 1;
    }
    None
}

/// How well a file's folder fits the name `wish`; `key` is the folder's key, `low` and `clean` are
/// the name without white space around it and cleaned, both in lower case.
fn fit_of(
    f: &FileInfo,
    key: &Vec<char>,
    wish: &Vec<char>,
    low: &Vec<char>,
    clean: &Vec<char>,
) -> (r: u8)
    requires
        key@ == folder_key(*f),
        low@ == lowercase(trimmed(wish@)),
        clean@ == lowercase(cleaned(trimmed(wish@))),
    ensures
        r == fit(*f, wish@),
{
    if let Some(s) = &f.folder {
        let name = chars_of(s.as_str());
        if same_chars(&name, wish) {
            return 3;
        }
        let t = trim(s.as_str());
        let t = to_lowercase(t.as_str());
        let t = chars_of(t.as_str());
        if same_chars(&t, low) {
            return 2;
        }
    }
    if same_chars(key, clean) {
        1
    } else {
        0
    }
}

fn pool_named(files: &Vec<FileInfo>, keys: &Vec<Vec<char>>, wish: &str) -> (r: Vec<usize>)
    requires
        keys@.len() == files@.len(),
        forall|i: int| 0 <= i < keys@.len() ==> #[trigger] keys@[i]@ == folder_key(files@[i]),
    ensures
        r@ == named_pool(files@, wish@),
        forall|i: int| 0 <= i < r@.len() ==> #[trigger] r@[i] < files@.len(),
{
    let name = chars_of(wish);
    let t = trim(wish);
    let low = to_lowercase(t.as_str());
    let low = chars_of(low.as_str());
    let c = clean_name(t.as_str());
    let clean = to_lowercase(c.as_str());
    let clean = chars_of(clean.as_str());
    let mut fits: Vec<u8> = Vec::new();
    let mut best: u8 = 0;
    let mut i: usize = 0;
    while i < files.len()
        invariant
            i <= files@.len() == keys@.len(),
            name@ == wish@,
            low@ == lowercase(trimmed(wish@)),
            clean@ == lowercase(cleaned(trimmed(wish@))),
            forall|j: int| 0 <= j < keys@.len() ==> #[trigger] keys@[j]@ == folder_key(files@[j]),
            fits@.len() == i,
            forall|j: int| 0 <= j < i ==> #[trigger] fits@[j] == fit(files@[j], wish@),
            best == best_fit(files@, i as int, wish@),
        decreases files@.len() - i,
    {
        let f = fit_of(&files[i], &keys[i], &name, &low, &clean);
        if files[i].bumper && f > best {
            best = f;
        }
        fits.push(f);
        i += 1;
    }
    let mut out: Vec<usize> = Vec::new();
    let mut k: usize = 0;
    while k < files.len()
        invariant
            k <= files@.len() == fits@.len(),
            forall|j: int| 0 <= j < fits@.len() ==> #[trigger] fits@[j] == fit(files@[j], wish@),
            out@ == fitting(files@, k as int, wish@, best as int),
            forall|j: int| 0 <= j < out@.len() ==> #[trigger] out@[j] < k,
        decreases files@.len() - k,
    {
        if files[k].bumper && fits[k] == best {
            out.push(k);
        }
        k += 1;
    }
    out
}

/// The pool of a channel in a library that has idents.
fn pool_of(
    files: &Vec<FileInfo>,
    keys: &Vec<Vec<char>>,
    manual: &Vec<Manual>,
    styles: &Vec<ChanStyle>,
    nets: &Vec<Network>,
    ch: usize,
) -> (r: Option<Vec<usize>>)
    requires
        keys@.len() == files@.len(),
        forall|i: int| 0 <= i < keys@.len() ==> #[trigger] keys@[i]@ == folder_key(files@[i]),
        styles_fit(styles@, nets@.len() as int),
        ident_files(files@, files@.len() as int).len() > 0,
    ensures
        pool_view(r) == channel_pool(files@, manual@, styles@, nets@, ch as int),
        pool_ok(pool_view(r), files@.len() as int),
{
    proof {
        reveal_strlit("off");
    }
    if let Some(k) = find_entry(manual, ch) {
        let t = trim(manual[k].idents.as_str());
        let word = to_lowercase(t.as_str());
        if same_text(word.as_str(), "off") {
            return None;
        }
        if !(word.as_str().is_empty() || same_text(word.as_str(), "auto")) {
            proof {
                lemma_fitting(files@, files@.len() as int, manual@[k as int].idents@);
            }
            return Some(pool_named(files, keys, manual[k].idents.as_str()));
        }
    }
    let key = if ch < styles.len() {
        let name = clean_name(nets[styles[ch].net].name.as_str());
        to_lowercase(name.as_str())
    } else {
        String::new()
    };
    assert(ch >= styles@.len() ==> key@ =~= Seq::empty());
    Some(pool_for(files, keys, key.as_str()))
}

/// No ident fits better than the best, and where there are idents some fit so well.
proof fn lemma_fitting(files: Seq<FileInfo>, n: int, wish: Seq<char>)
    requires
        0 <= n <= files.len(),
    ensures
        0 <= best_fit(files, n, wish) <= 3,
        forall|b: int|
            0 <= b < n && (#[trigger] files[b]).bumper ==> fit(files[b], wish) <= best_fit(
                files,
                n,
                wish,
            ),
        ident_files(files, n).len() == 0 ==> best_fit(files, n, wish) == 0,
        ident_files(files, n).len() > 0 ==> fitting(
            files,
            n,
            wish,
            best_fit(files, n, wish),
        ).len() > 0,
    decreases n,
{
    if n > 0 {
        lemma_fitting(files, n - 1, wish);
    }
}

/// What is said to fit so well does.
proof fn lemma_fits(files: Seq<FileInfo>, n: int, wish: Seq<char>, how: int)
    requires
        0 <= n <= files.len(),
        files.len() <= usize::MAX,
    ensures
        forall|i: int|
            0 <= i < fitting(files, n, wish, how).len() ==> {
                let b = #[trigger] fitting(files, n, wish, how)[i] as int;
                b < n && files[b].bumper && fit(files[b], wish) == how
            },
    decreases n,
{
    if n > 0 {
        lemma_fits(files, n - 1, wish, how);
    }
}

pub open spec fn pool_view(p: Option<Vec<usize>>) -> Option<Seq<usize>> {
    match p {
        Some(v) => Some(v@),
        None => None,
    }
}

pub open spec fn pool_views(p: Seq<Option<Vec<usize>>>) -> Seq<Option<Seq<usize>>> {
    p.map_values(|o: Option<Vec<usize>>| pool_view(o))
}

/// A pool from which an ident can be drawn: not empty, and of the library.
pub open spec fn pool_ok(p: Option<Seq<usize>>, file_count: int) -> bool {
    p matches Some(v) ==> v.len() > 0 && forall|i: int|
        0 <= i < v.len() ==> #[trigger] v[i] < file_count
}

fn make_pools(
    files: &Vec<FileInfo>,
    n: usize,
    styles: &Vec<ChanStyle>,
    nets: &Vec<Network>,
    manual: &Vec<Manual>,
) -> (r: Vec<Option<Vec<usize>>>)
    requires
        n < usize::MAX,
        styles_fit(styles@, nets@.len() as int),
    ensures
        pool_views(r@) == channel_pools(files@, manual@, styles@, nets@, n as nat),
        forall|c: int| 0 <= c < r@.len() ==> pool_ok(pool_view(#[trigger] r@[c]), files@.len() as int),
{
    let idents = all_idents(files);
    let keys = folder_keys(files);
    let mut out: Vec<Option<Vec<usize>>> = Vec::new();
    let mut ch: usize = 1;
    while ch <= n
        invariant
            1 <= ch <= n + 1,
            n < usize::MAX,
            styles_fit(styles@, nets@.len() as int),
            idents@ == ident_files(files@, files@.len() as int),
            keys@.len() == files@.len(),
            forall|j: int| 0 <= j < keys@.len() ==> #[trigger] keys@[j]@ == folder_key(files@[j]),
            pool_views(out@) =~= channel_pools(files@, manual@, styles@, nets@, (ch - 1) as nat),
            forall|c: int|
                0 <= c < out@.len() ==> pool_ok(pool_view(#[trigger] out@[c]), files@.len() as int),
        decreases n + 1 - ch,
    {
        let pool = if idents.len() == 0 {
            None
        } else {
            pool_of(files, &keys, manual, styles, nets, ch)
        };
        let ghost before = pool_views(out@);
        proof {
            assert(pool_view(pool) == channel_pool(files@, manual@, styles@, nets@, ch as int));
        }
        out.push(pool);
        assert(pool_views(out@) =~= before.push(pool_view(pool)));
        ch += 1;
    }
    out
}

/// Marks the files that some lineup channel has for its own.
fn pinned_marks(count: usize, manual: &Vec<Manual>) -> (r: Vec<bool>)
    requires
        forall|k: int, i: int|
            0 <= k < manual@.len() && 0 <= i < manual@[k].files@.len()
                ==> #[trigger] manual@[k].files@[i] < count,
    ensures
        r@.len() == count,
        forall|f: int| 0 <= f < count ==> #[trigger] r@[f] == is_pinned(manual@, f),
{
    let mut marks: Vec<bool> = Vec::new();
    let mut i: usize = 0;
    while i < count
        invariant
            i <= count,
            marks@.len() == i,
            forall|j: int| 0 <= j < i ==> !#[trigger] marks@[j],
        decreases count - i,
    {
        marks.push(false);
        i += 1;
    }
    let mut k: usize = 0;
    while k < manual.len()
        invariant
            k <= manual@.len(),
            marks@.len() == count,
            forall|a: int, b: int|
                0 <= a < manual@.len() && 0 <= b < manual@[a].files@.len()
                    ==> #[trigger] manual@[a].files@[b] < count,
            forall|a: int, b: int|
                0 <= a < k && 0 <= b < manual@[a].files@.len() ==> marks@[(
                #[trigger] manual@[a].files@[b]) as int],
            forall|f: int| 0 <= f < count && #[trigger] marks@[f] ==> is_pinned(manual@, f),
        decreases manual@.len() - k,
    {
        let list = &manual[k].files;
        let mut i: usize = 0;
        while i < list.len()
            invariant
                i <= list@.len(),
                k < manual@.len(),
                list@ == manual@[k as int].files@,
                marks@.len() == count,
                forall|a: int, b: int|
                    0 <= a < manual@.len() && 0 <= b < manual@[a].files@.len()
                        ==> #[trigger] manual@[a].files@[b] < count,
                forall|a: int, b: int|
                    0 <= a < k && 0 <= b < manual@[a].files@.len() ==> marks@[(
                    #[trigger] manual@[a].files@[b]) as int],
                forall|b: int| 0 <= b < i ==> marks@[(#[trigger] list@[b]) as int],
                forall|f: int| 0 <= f < count && #[trigger] marks@[f] ==> is_pinned(manual@, f),
            decreases list@.len() - i,
        {
            assert(manual@[k as int].files@[i as int] < count);
            marks.set(list[i], true);
            i += 1;
        }
        k += 1;
    }
    marks
}

fn free_list(files: &Vec<FileInfo>, manual: &Vec<Manual>) -> (r: Vec<usize>)
    requires
        forall|k: int, i: int|
            0 <= k < manual@.len() && 0 <= i < manual@[k].files@.len()
                ==> #[trigger] manual@[k].files@[i] < files@.len(),
    ensures
        r@ == free_files(files@, manual@, files@.len() as int),
        forall|i: int| 0 <= i < r@.len() ==> #[trigger] r@[i] < files@.len(),
{
    let marks = pinned_marks(files.len(), manual);
    let mut out: Vec<usize> = Vec::new();
    let mut i: usize = 0;
    while i < files.len()
        invariant
            i <= files@.len() == marks@.len(),
            forall|f: int| 0 <= f < files@.len() ==> #[trigger] marks@[f] == is_pinned(manual@, f),
            out@ == free_files(files@, manual@, i as int),
            forall|j: int| 0 <= j < out@.len() ==> #[trigger] out@[j] < i,
        decreases files@.len() - i,
    {
        if !files[i].bumper && !marks[i] {
            out.push(i);
        }
        i += 1;
    }
    out
}

fn auto_list(manual: &Vec<Manual>, n: usize) -> (r: Vec<usize>)
    requires
        n < usize::MAX,
    ensures
        r@ == auto_channels(manual@, n as int),
        forall|i: int| 0 <= i < r@.len() ==> 1 <= #[trigger] r@[i] <= n,
{
    let mut out: Vec<usize> = Vec::new();
    let mut ch: usize = 1;
    while ch <= n
        invariant
            1 <= ch <= n + 1,
            n < usize::MAX,
            out@ == auto_channels(manual@, ch - 1),
            forall|i: int| 0 <= i < out@.len() ==> 1 <= #[trigger] out@[i] < ch,
        decreases n + 1 - ch,
    {
        if find_entry(manual, ch).is_none() {
            out.push(ch);
        }
        ch += 1;
    }
    out
}

fn air_one(list: &mut Vec<usize>, rng: u64, f: usize, pool: &Option<Vec<usize>>) -> (r: u64)
    requires
        pool_view(*pool) matches Some(v) ==> v.len() > 0,
    ensures
        (final(list)@, r) == air(old(list)@, rng, f, pool_view(*pool)),
{
    list.push(f);
    match pool {
        Some(p) => {
            let x = lcg_next(rng);
            let k: usize = (draw_from(x) % (p.len() as u64)) as usize;
            list.push(p[k]);
            x
        },
        None => rng,
    }
}

pub open spec fn list_views(v: Seq<Vec<usize>>) -> Seq<Seq<usize>> {
    v.map_values(|l: Vec<usize>| l@)
}

/// Every number of the list is below `n`.
pub open spec fn below(list: Seq<usize>, n: int) -> bool {
    forall|i: int| 0 <= i < list.len() ==> #[trigger] list[i] < n
}

/// Every number of the lists is below `n`.
pub open spec fn all_below(lists: Seq<Seq<usize>>, n: int) -> bool {
    forall|c: int| 0 <= c < lists.len() ==> below(#[trigger] lists[c], n)
}

fn deal(
    n: usize,
    order: &Vec<usize>,
    auto: &Vec<usize>,
    pools: &Vec<Option<Vec<usize>>>,
    rng: u64,
    Ghost(count): Ghost<int>,
) -> (r: (Vec<Vec<usize>>, u64))
    requires
        pools@.len() == n,
        forall|c: int| 0 <= c < n ==> pool_ok(pool_view(#[trigger] pools@[c]), count),
        forall|i: int| 0 <= i < auto@.len() ==> 1 <= #[trigger] auto@[i] <= n,
        below(order@, count),
    ensures
        (list_views(r.0@), r.1) == dealt(
            n as nat,
            order@,
            auto@,
            pool_views(pools@),
            rng,
            order@.len() as int,
        ),
        r.0@.len() == n,
        all_below(list_views(r.0@), count),
{
    let mut lists: Vec<Vec<usize>> = Vec::new();
    let mut i: usize = 0;
    while i < n
        invariant
            i <= n,
            list_views(lists@) =~= Seq::new(i as nat, |c: int| Seq::<usize>::empty()),
        decreases n - i,
    {
        let ghost before = list_views(lists@);
        let list: Vec<usize> = Vec::new();
        lists.push(list);
        assert(list_views(lists@) =~= before.push(list@));
        assert(list@ =~= Seq::empty());
        i += 1;
    }
    let mut x = rng;
    assert(list_views(lists@).len() == lists@.len());
    if auto.len() == 0 {
        return (lists, x);
    }
    let ghost pv = pool_views(pools@);
    let mut k: usize = 0;
    while k < order.len()
        invariant
            k <= order@.len(),
            auto@.len() > 0,
            lists@.len() == n == pools@.len(),
            pv == pool_views(pools@),
            forall|c: int| 0 <= c < n ==> pool_ok(pool_view(#[trigger] pools@[c]), count),
            forall|i: int| 0 <= i < auto@.len() ==> 1 <= #[trigger] auto@[i] <= n,
            below(order@, count),
            (list_views(lists@), x) == dealt(n as nat, order@, auto@, pv, rng, k as int),
            all_below(list_views(lists@), count),
        decreases order@.len() - k,
    {
        let a: usize = k % auto.len();
        assert(1 <= auto@[a as int] <= n);
        let c: usize = auto[a] - 1;
        let ghost before = list_views(lists@);
        let mut list = take_list(&mut lists, c);
        assert(pool_ok(pool_view(pools@[c as int]), count));
        x = air_one(&mut list, x, order[k], &pools[c]);
        let ghost new = list@;
        lists.set(c, list);
        proof {
            assert(pv[c as int] == pool_view(pools@[c as int]));
            assert(list_views(lists@) =~= before.update(c as int, new));
            assert(below(before[c as int], count));
            assert(below(new, count));
        }
        k += 1;
    }
    (lists, x)
}

/// Takes list `c` out, leaving an empty one in its place.
fn take_list(lists: &mut Vec<Vec<usize>>, c: usize) -> (r: Vec<usize>)
    requires
        c < old(lists)@.len(),
    ensures
        r@ == old(lists)@[c as int]@,
        final(lists)@.len() == old(lists)@.len(),
        forall|i: int| 0 <= i < final(lists)@.len() && i != c ==> final(lists)@[i] == old(lists)@[i],
{
    let mut list: Vec<usize> = Vec::new();
    std::mem::swap(&mut list, &mut lists[c]);
    list
}

fn path_keys(files: &Vec<FileInfo>) -> (r: Vec<Vec<char>>)
    ensures
        key_texts(r@) == low_paths(files@),
        r@.len() == files@.len(),
{
    let mut out: Vec<Vec<char>> = Vec::new();
    let mut i: usize = 0;
    while i < files.len()
        invariant
            i <= files@.len(),
            out@.len() == i,
            forall|j: int| 0 <= j < i ==> #[trigger] out@[j]@ == lowercase(files@[j].path@),
        decreases files@.len() - i,
    {
        let low = to_lowercase(files[i].path.as_str());
        out.push(chars_of(low.as_str()));
        i += 1;
    }
    assert(key_texts(out@) =~= low_paths(files@));
    out
}

fn own_seed(ch: usize) -> (r: u64)
    ensures
        r == channel_seed(ch as int),
{
    let x = (ch as u64).wrapping_mul(0x9E37_79B9_7F4A_7C15);
    if x % 2 == 0 {
        x + 1
    } else {
        x
    }
}

/// Every number of `dedup(s)` is in `s`, and every number of `s` is in it.
proof fn lemma_dedup_keeps(s: Seq<usize>)
    ensures
        forall|x: usize| dedup(s).contains(x) <==> s.contains(x),
        s.len() > 0 ==> dedup(s).len() > 0 && dedup(s).last() == s.last(),
    decreases s.len(),
{
    if s.len() > 1 {
        let t = s.drop_last();
        lemma_dedup_keeps(t);
        assert(s =~= t.push(s.last()));
        assert forall|x: usize| dedup(s).contains(x) <==> s.contains(x) by {
            assert(s.contains(x) <==> t.contains(x) || x == s.last()) by {
                if s.contains(x) {
                    let i = choose|i: int| 0 <= i < s.len() && s[i] == x;
                    if i < t.len() {
                        assert(t[i] == x);
                    }
                }
                if t.contains(x) {
                    let i = choose|i: int| 0 <= i < t.len() && t[i] == x;
                    assert(s[i] == x);
                }
                if x == s.last() {
                    assert(s[s.len() - 1] == x);
                }
            }
            if s.last() == s[s.len() - 2] {
                assert(t.last() == s.last());
                assert(t.contains(s.last()));
            } else {
                let d = dedup(t);
                assert(dedup(s) == d.push(s.last()));
                if dedup(s).contains(x) {
                    let i = choose|i: int| 0 <= i < dedup(s).len() && dedup(s)[i] == x;
                    if i < d.len() {
                        assert(d[i] == x);
                    }
                }
                if d.contains(x) {
                    let i = choose|i: int| 0 <= i < d.len() && d[i] == x;
                    assert(dedup(s)[i] == x);
                }
                assert(dedup(s)[d.len() as int] == s.last());
            }
        }
    }
}

/// A lineup channel has exactly the files of its folders.
pub proof fn lineup_channels_play_their_own(files: Seq<FileInfo>, m: Manual)
    ensures
        forall|f: usize| own_programs(files, m).contains(f) <==> m.files@.contains(f),
{
    let sorted = sort_by(m.files@, low_paths(files));
    sorting_is_stable(m.files@, low_paths(files));
    lemma_same_elements(sorted, m.files@);
    lemma_dedup_keeps(sorted);
    let list = dedup(sorted);
    shuffling_permutes(list, channel_seed(m.channel as int));
    lemma_same_elements(shuffled(list, channel_seed(m.channel as int)).0, list);
}

fn own_list(files: &Vec<FileInfo>, keys: &Vec<Vec<char>>, m: &Manual) -> (r: Vec<usize>)
    requires
        keys@.len() == files@.len(),
        key_texts(keys@) == low_paths(files@),
        below(m.files@, files@.len() as int),
    ensures
        r@ == own_programs(files@, *m),
        below(r@, files@.len() as int),
{
    let sorted = sort_indices(&m.files, keys);
    let mut list = dedup_indices(&sorted);
    if m.shuffle {
        let end = shuffle(&mut list, own_seed(m.channel));
    }
    proof {
        lineup_channels_play_their_own(files@, *m);
        assert forall|i: int| 0 <= i < list@.len() implies #[trigger] list@[i] < files@.len() by {
            assert(list@.contains(list@[i]));
            assert(m.files@.contains(list@[i]));
        }
    }
    list
}

/// Lays a list of files out one after the other.
pub fn lay_out(list: &Vec<usize>, files: &Vec<FileInfo>) -> (r: Schedule)
    requires
        below(list@, files@.len() as int),
    ensures
        r.playlist() == list@,
        r.laid_out(files@),
{
    let mut programs: Vec<Program> = Vec::new();
    let mut total: u128 = 0;
    let mut i: usize = 0;
    while i < list.len()
        invariant
            i <= list@.len(),
            below(list@, files@.len() as int),
            programs@.len() == i,
            total == run_time(files@, list@.take(i as int)),
            total <= i * 0xffff_ffff_ffff_ffff,
            forall|j: int|
                0 <= j < i ==> (#[trigger] programs@[j]).file == list@[j] && programs@[j].start
                    == run_time(files@, list@.take(j)),
        decreases list@.len() - i,
    {
        assert(list@.take(i + 1).drop_last() =~= list@.take(i as int));
        assert(list@.take(i + 1).last() == list@[i as int]);
        programs.push(Program { file: list[i], start: total });
        total = total + files[list[i]].duration as u128;
        i += 1;
    }
    let r = Schedule { programs, total };
    assert(r.playlist() =~= list@);
    assert(list@.take(list@.len() as int) =~= list@);
    r
}

/// Channels 1 to `n`. Lineup channels with their own folders get exactly those files (shuffled or
/// alphabetical); every other channel gets a share of the remaining library, dealt round-robin
/// after a deterministic shuffle. With idents, one follows every program: the channel's own
/// network's if that folder exists (or the folder the lineup names), else any.
pub fn build_schedules(
    files: &Vec<FileInfo>,
    n: usize,
    styles: &Vec<ChanStyle>,
    nets: &Vec<Network>,
    manual: &Vec<Manual>,
) -> (r: Vec<Schedule>)
    requires
        n < usize::MAX,
        styles_fit(styles@, nets@.len() as int),
        lineup_fits(manual@, n as int, files@.len() as int),
    ensures
        r@.len() == n,
        r@.map_values(|s: Schedule| s.playlist()) == playlists(
            files@,
            n as nat,
            styles@,
            nets@,
            manual@,
        ),
        forall|c: int| 0 <= c < r@.len() ==> (#[trigger] r@[c]).laid_out(files@),
{
    let pools = make_pools(files, n, styles, nets, manual);
    assert(pool_views(pools@).len() == pools@.len());
    let mut order = free_list(files, manual);
    let ghost free = order@;
    let rng = shuffle(&mut order, DEAL_SEED);
    proof {
        lemma_same_elements(order@, free);
        assert forall|i: int| 0 <= i < order@.len() implies #[trigger] order@[i] < files@.len() by {
            assert(order@.contains(order@[i]));
            assert(free.contains(order@[i]));
        }
    }
    let auto = auto_list(manual, n);
    let ghost count = files@.len() as int;
    let (mut lists, mut x) = deal(n, &order, &auto, &pools, rng, Ghost(count));
    let ghost lists0 = list_views(lists@);
    let ghost x0 = x;
    let ghost pv = pool_views(pools@);
    let keys = path_keys(files);
    let mut c: usize = 0;
    while c < n
        invariant
            c <= n,
            n < usize::MAX,
            lists@.len() == n == pools@.len(),
            count == files@.len(),
            pv == pool_views(pools@),
            forall|c: int| 0 <= c < n ==> pool_ok(pool_view(#[trigger] pools@[c]), count),
            lineup_fits(manual@, n as int, count),
            keys@.len() == files@.len(),
            key_texts(keys@) == low_paths(files@),
            (list_views(lists@), x) == with_lineup(lists0, x0, files@, manual@, pv, c as int),
            all_below(list_views(lists@), count),
        decreases n - c,
    {
        if let Some(k) = find_entry(manual, c + 1) {
            let m = &manual[k];
            assert forall|i: int| 0 <= i < m.files@.len() implies #[trigger] m.files@[i] < count by {
                assert(manual@[k as int].files@[i] < count);
            }
            let items = own_list(files, &keys, m);
            let ghost before = list_views(lists@);
            let mut list = take_list(&mut lists, c);
            let ghost start = list@;
            let ghost y = x;
            assert(start == before[c as int]);
            assert(below(before[c as int], count));
            let ghost pool = pool_view(pools@[c as int]);
            assert(pool_ok(pool, count));
            let mut i: usize = 0;
            while i < items.len()
                invariant
                    i <= items@.len(),
                    c < pools@.len(),
                    pool == pool_view(pools@[c as int]),
                    pool_ok(pool, count),
                    below(items@, count),
                    below(list@, count),
                    (list@, x) == aired(start, y, items@, pool, i as int),
                decreases items@.len() - i,
            {
                x = air_one(&mut list, x, items[i], &pools[c]);
                i += 1;
            }
            let ghost new = list@;
            lists.set(c, list);
            proof {
                assert(pv[c as int] == pool);
                assert(list_views(lists@) =~= before.update(c as int, new));
            }
        }
        c += 1;
    }
    let mut out: Vec<Schedule> = Vec::new();
    let ghost views = list_views(lists@);
    let mut d: usize = 0;
    while d < lists.len()
        invariant
            d <= lists@.len() == n,
            count == files@.len(),
            views == list_views(lists@),
            all_below(views, count),
            out@.len() == d,
            forall|e: int|
                0 <= e < d ==> (#[trigger] out@[e]).laid_out(files@) && out@[e].playlist()
                    == views[e],
        decreases lists@.len() - d,
    {
        assert(below(views[d as int], count));
        out.push(lay_out(&lists[d], files));
        d += 1;
    }
    assert(out@.map_values(|s: Schedule| s.playlist()) =~= views);
    out
}

// ---------------------------------------------------------------- what the deal keeps

/// The programs of a playlist: every other entry where an ident follows each program.
pub open spec fn programs_in(list: Seq<usize>, with_idents: bool) -> Seq<usize> {
    if with_idents {
        Seq::new(list.len() / 2, |i: int| list[2 * i])
    } else {
        list
    }
}

/// The part of the first `k` of `order` that channel `ch` is dealt.
pub open spec fn share(order: Seq<usize>, auto: Seq<usize>, ch: int, k: int) -> Seq<usize>
    decreases k,
{
    if k <= 0 {
        Seq::empty()
    } else if auto[(k - 1) % (auto.len() as int)] == ch {
        share(order, auto, ch, k - 1).push(order[k - 1])
    } else {
        share(order, auto, ch, k - 1)
    }
}

/// Every second entry is from the pool.
pub open spec fn idents_between(list: Seq<usize>, pool: Option<Seq<usize>>) -> bool {
    pool matches Some(p) ==> list.len() % 2 == 0 && forall|i: int|
        0 <= i < list.len() && i % 2 == 1 ==> p.contains(#[trigger] list[i])
}

proof fn lemma_air(list: Seq<usize>, rng: u64, f: usize, pool: Option<Seq<usize>>)
    requires
        idents_between(list, pool),
        pool matches Some(p) ==> p.len() > 0,
    ensures
        idents_between(air(list, rng, f, pool).0, pool),
        programs_in(air(list, rng, f, pool).0, pool is Some) == programs_in(
            list,
            pool is Some,
        ).push(f),
{
    let new = air(list, rng, f, pool).0;
    if let Some(p) = pool {
        let k = draw(lcg(rng)) as int % (p.len() as int);
        assert(p.contains(p[k]));
        assert forall|i: int| 0 <= i < new.len() && i % 2 == 1 implies p.contains(
            #[trigger] new[i],
        ) by {
            if i < list.len() {
                assert(new[i] == list[i]);
            }
        }
        assert(programs_in(new, true) =~= programs_in(list, true).push(f));
    }
}

proof fn lemma_aired(
    list: Seq<usize>,
    rng: u64,
    items: Seq<usize>,
    pool: Option<Seq<usize>>,
    k: int,
)
    requires
        idents_between(list, pool),
        pool matches Some(p) ==> p.len() > 0,
        0 <= k <= items.len(),
    ensures
        idents_between(aired(list, rng, items, pool, k).0, pool),
        programs_in(aired(list, rng, items, pool, k).0, pool is Some) == programs_in(
            list,
            pool is Some,
        ) + items.take(k),
    decreases k,
{
    if k > 0 {
        lemma_aired(list, rng, items, pool, k - 1);
        let (l, r) = aired(list, rng, items, pool, k - 1);
        lemma_air(l, r, items[k - 1], pool);
        assert(items.take(k) =~= items.take(k - 1).push(items[k - 1]));
        assert(programs_in(list, pool is Some) + items.take(k) =~= (programs_in(
            list,
            pool is Some,
        ) + items.take(k - 1)).push(items[k - 1]));
    } else {
        assert(programs_in(list, pool is Some) + items.take(0) =~= programs_in(
            list,
            pool is Some,
        ));
    }
}

/// Every pool from which idents are drawn has some.
pub open spec fn pools_filled(pools: Seq<Option<Seq<usize>>>) -> bool {
    forall|c: int| 0 <= c < pools.len() ==> ((#[trigger] pools[c]) matches Some(p) ==> p.len() > 0)
}

proof fn lemma_dealt(
    n: nat,
    order: Seq<usize>,
    auto: Seq<usize>,
    pools: Seq<Option<Seq<usize>>>,
    rng: u64,
    k: int,
)
    requires
        auto.len() > 0,
        0 <= k <= order.len(),
        pools.len() == n,
        pools_filled(pools),
        forall|i: int| 0 <= i < auto.len() ==> 1 <= #[trigger] auto[i] <= n,
    ensures
        dealt(n, order, auto, pools, rng, k).0.len() == n,
        forall|c: int|
            0 <= c < n ==> {
                &&& idents_between(#[trigger] dealt(n, order, auto, pools, rng, k).0[c], pools[c])
                &&& programs_in(dealt(n, order, auto, pools, rng, k).0[c], pools[c] is Some)
                    == share(order, auto, c + 1, k)
            },
    decreases k,
{
    let lists = dealt(n, order, auto, pools, rng, k).0;
    if k > 0 {
        lemma_dealt(n, order, auto, pools, rng, k - 1);
        let (l, r) = dealt(n, order, auto, pools, rng, k - 1);
        let a = (k - 1) % (auto.len() as int);
        assert(1 <= auto[a] <= n);
        let c = auto[a] - 1;
        assert(idents_between(l[c], pools[c]));
        lemma_air(l[c], r, order[k - 1], pools[c]);
        assert forall|d: int| 0 <= d < n implies {
            &&& idents_between(#[trigger] lists[d], pools[d])
            &&& programs_in(lists[d], pools[d] is Some) == share(order, auto, d + 1, k)
        } by {
            assert(idents_between(l[d], pools[d]));
            if d != c {
                assert(lists[d] == l[d]);
            }
        }
    } else {
        assert forall|d: int| 0 <= d < n implies {
            &&& idents_between(#[trigger] lists[d], pools[d])
            &&& programs_in(lists[d], pools[d] is Some) == share(order, auto, d + 1, k)
        } by {
            assert(programs_in(lists[d], pools[d] is Some) =~= Seq::empty());
        }
    }
}

proof fn lemma_entry_for(manual: Seq<Manual>, ch: int)
    ensures
        match entry_for(manual, ch) {
            Some(m) => exists|k: int|
                0 <= k < manual.len() && #[trigger] manual[k] == m && m.channel == ch,
            None => forall|k: int| 0 <= k < manual.len() ==> (#[trigger] manual[k]).channel != ch,
        },
    decreases manual.len(),
{
    if manual.len() > 0 {
        let t = manual.drop_last();
        lemma_entry_for(t, ch);
        if manual.last().channel == ch {
            assert(manual[manual.len() - 1] == manual.last());
        } else {
            if let Some(m) = entry_for(t, ch) {
                let k = choose|k: int|
                    0 <= k < t.len() && #[trigger] t[k] == m && m.channel == ch;
                assert(manual[k] == m);
            } else {
                assert forall|k: int| 0 <= k < manual.len() implies (
                #[trigger] manual[k]).channel != ch by {
                    if k < t.len() {
                        assert(t[k].channel != ch);
                    }
                }
            }
        }
    }
}

proof fn lemma_auto_channels(manual: Seq<Manual>, n: int)
    requires
        0 <= n <= usize::MAX,
    ensures
        forall|i: int|
            0 <= i < auto_channels(manual, n).len() ==> 1 <= #[trigger] auto_channels(manual, n)[i]
                <= n && entry_for(manual, auto_channels(manual, n)[i] as int) is None,
        forall|i: int, j: int|
            0 <= i < j < auto_channels(manual, n).len() ==> #[trigger] auto_channels(manual, n)[i]
                < #[trigger] auto_channels(manual, n)[j],
    decreases n,
{
    if n > 0 {
        lemma_auto_channels(manual, n - 1);
    }
}

proof fn lemma_share_empty(order: Seq<usize>, auto: Seq<usize>, ch: int, k: int)
    requires
        auto.len() > 0,
        forall|i: int| 0 <= i < auto.len() ==> #[trigger] auto[i] != ch,
    ensures
        share(order, auto, ch, k).len() == 0,
    decreases k,
{
    if k > 0 {
        lemma_share_empty(order, auto, ch, k - 1);
        let a = (k - 1) % (auto.len() as int);
        assert(auto[a] != ch);
    }
}

proof fn lemma_with_lineup(
    lists: Seq<Seq<usize>>,
    rng: u64,
    files: Seq<FileInfo>,
    manual: Seq<Manual>,
    pools: Seq<Option<Seq<usize>>>,
    ch: int,
    n: int,
)
    requires
        0 <= ch <= n,
        lists.len() == pools.len() == n,
        pools_filled(pools),
        forall|c: int|
            0 <= c < n && entry_for(manual, c + 1) is Some ==> (#[trigger] lists[c]).len() == 0,
        forall|c: int| 0 <= c < n ==> idents_between(#[trigger] lists[c], pools[c]),
    ensures
        ({
            let out = with_lineup(lists, rng, files, manual, pools, ch).0;
            &&& out.len() == n
            &&& forall|c: int| 0 <= c < n ==> idents_between(#[trigger] out[c], pools[c])
            &&& forall|c: int|
                0 <= c < ch ==> (entry_for(manual, c + 1) matches Some(m) ==> programs_in(
                    #[trigger] out[c],
                    pools[c] is Some,
                ) == own_programs(files, m))
            &&& forall|c: int|
                0 <= c < n && (entry_for(manual, c + 1) is None || c >= ch) ==> #[trigger] out[c]
                    == lists[c]
        }),
    decreases ch,
{
    if ch > 0 {
        lemma_with_lineup(lists, rng, files, manual, pools, ch - 1, n);
        let (l, r) = with_lineup(lists, rng, files, manual, pools, ch - 1);
        let out = with_lineup(lists, rng, files, manual, pools, ch).0;
        let c = ch - 1;
        assert(l[c] == lists[c]);
        if let Some(m) = entry_for(manual, ch) {
            let items = own_programs(files, m);
            assert(lists[c].len() == 0);
            lemma_aired(l[c], r, items, pools[c], items.len() as int);
            assert(programs_in(l[c], pools[c] is Some) + items.take(items.len() as int) =~= items);
            assert forall|d: int| 0 <= d < n implies idents_between(#[trigger] out[d], pools[d]) by {
                assert(idents_between(l[d], pools[d]));
            }
            assert forall|d: int| 0 <= d < ch implies (entry_for(manual, d + 1) matches Some(m)
                ==> programs_in(#[trigger] out[d], pools[d] is Some) == own_programs(files, m)) by {
                if d < c {
                    assert(out[d] == l[d]);
                }
            }
            assert forall|d: int|
                0 <= d < n && (entry_for(manual, d + 1) is None || d
                    >= ch) implies #[trigger] out[d] == lists[d] by {
                assert(l[d] == lists[d]);
            }
        } else {
            assert forall|d: int|
                0 <= d < n && (entry_for(manual, d + 1) is None || d
                    >= ch) implies #[trigger] out[d] == lists[d] by {
                assert(l[d] == lists[d]);
            }
        }
    }
}

proof fn lemma_pools_filled(
    files: Seq<FileInfo>,
    manual: Seq<Manual>,
    styles: Seq<ChanStyle>,
    nets: Seq<Network>,
    n: nat,
)
    ensures
        pools_filled(channel_pools(files, manual, styles, nets, n)),
{
    let pools = channel_pools(files, manual, styles, nets, n);
    assert forall|c: int| 0 <= c < pools.len() implies ((#[trigger] pools[c]) matches Some(p)
        ==> p.len() > 0) by {
        if let Some(m) = entry_for(manual, c + 1) {
            lemma_fitting(files, files.len() as int, m.idents@);
        }
    }
}

/// The programs of channel `c + 1`, without its idents.
pub open spec fn programs_on(
    files: Seq<FileInfo>,
    n: nat,
    styles: Seq<ChanStyle>,
    nets: Seq<Network>,
    manual: Seq<Manual>,
    c: int,
) -> Seq<usize> {
    programs_in(
        playlists(files, n, styles, nets, manual)[c],
        channel_pools(files, manual, styles, nets, n)[c] is Some,
    )
}

/// The shuffled programs that are dealt to the automatic channels.
pub open spec fn deal_order(files: Seq<FileInfo>, manual: Seq<Manual>) -> Seq<usize> {
    shuffled(free_files(files, manual, files.len() as int), DEAL_SEED).0
}

/// What each channel plays: a lineup channel its own programs, every other channel its share of
/// the deal, round-robin; and where a channel has idents, one follows every program.
pub proof fn channels_play_what_they_are_dealt(
    files: Seq<FileInfo>,
    n: nat,
    styles: Seq<ChanStyle>,
    nets: Seq<Network>,
    manual: Seq<Manual>,
    c: int,
)
    requires
        n <= usize::MAX,
        lineup_fits(manual, n as int, files.len() as int),
        0 <= c < n,
    ensures
        idents_between(
            playlists(files, n, styles, nets, manual)[c],
            channel_pool(files, manual, styles, nets, c + 1),
        ),
        match entry_for(manual, c + 1) {
            Some(m) => programs_on(files, n, styles, nets, manual, c) == own_programs(files, m),
            None => programs_on(files, n, styles, nets, manual, c) == share(
                deal_order(files, manual),
                auto_channels(manual, n as int),
                c + 1,
                deal_order(files, manual).len() as int,
            ),
        },
{
    let pools = channel_pools(files, manual, styles, nets, n);
    let (order, r) = shuffled(free_files(files, manual, files.len() as int), DEAL_SEED);
    let auto = auto_channels(manual, n as int);
    let (lists, r2) = dealt(n, order, auto, pools, r, order.len() as int);
    lemma_pools_filled(files, manual, styles, nets, n);
    lemma_auto_channels(manual, n as int);
    if auto.len() > 0 {
        lemma_dealt(n, order, auto, pools, r, order.len() as int);
    } else {
        lemma_no_auto(manual, n as int, c + 1);
    }
    assert forall|d: int| 0 <= d < n implies idents_between(#[trigger] lists[d], pools[d]) by {
        if auto.len() > 0 {
            assert(idents_between(
                dealt(n, order, auto, pools, r, order.len() as int).0[d],
                pools[d],
            ));
        }
    }
    assert forall|d: int| 0 <= d < n && entry_for(manual, d + 1) is Some implies (
    #[trigger] lists[d]).len() == 0 by {
        if auto.len() > 0 {
            assert(idents_between(lists[d], pools[d]));
            lemma_share_empty(order, auto, d + 1, order.len() as int);
            assert(programs_in(lists[d], pools[d] is Some).len() == 0);
        }
    }
    lemma_with_lineup(lists, r2, files, manual, pools, n as int, n as int);
    let out = playlists(files, n, styles, nets, manual);
    assert(idents_between(out[c], pools[c]));
    if entry_for(manual, c + 1) is None {
        assert(out[c] == lists[c]);
        assert(idents_between(lists[c], pools[c]));
    }
}

/// Without automatic channels every channel is in the lineup.
proof fn lemma_no_auto(manual: Seq<Manual>, n: int, ch: int)
    requires
        auto_channels(manual, n).len() == 0,
        1 <= ch <= n,
    ensures
        entry_for(manual, ch) is Some,
    decreases n,
{
    if ch < n {
        lemma_no_auto(manual, n - 1, ch);
    }
}

/// What a channel is dealt stands in the order at one of the channel's turns.
proof fn lemma_share_turn(order: Seq<usize>, auto: Seq<usize>, ch: int, k: int, j: int) -> (i: int)
    requires
        auto.len() > 0,
        0 <= j < share(order, auto, ch, k).len(),
    ensures
        0 <= i < k,
        order[i] == share(order, auto, ch, k)[j],
        auto[i % (auto.len() as int)] == ch,
    decreases k,
{
    let rest = share(order, auto, ch, k - 1);
    if j < rest.len() {
        lemma_share_turn(order, auto, ch, k - 1, j)
    } else {
        k - 1
    }
}

/// A channel is dealt what stands in the order at its turns.
proof fn lemma_turn_share(order: Seq<usize>, auto: Seq<usize>, ch: int, k: int, i: int) -> (j: int)
    requires
        auto.len() > 0,
        0 <= i < k,
        auto[i % (auto.len() as int)] == ch,
    ensures
        0 <= j < share(order, auto, ch, k).len(),
        share(order, auto, ch, k)[j] == order[i],
    decreases k,
{
    let rest = share(order, auto, ch, k - 1);
    if i < k - 1 {
        lemma_turn_share(order, auto, ch, k - 1, i)
    } else {
        rest.len() as int
    }
}

/// No channel is dealt anything twice.
proof fn lemma_share_distinct(order: Seq<usize>, auto: Seq<usize>, ch: int, k: int)
    requires
        auto.len() > 0,
        0 <= k <= order.len(),
        order.no_duplicates(),
    ensures
        share(order, auto, ch, k).no_duplicates(),
    decreases k,
{
    if k > 0 {
        lemma_share_distinct(order, auto, ch, k - 1);
        let rest = share(order, auto, ch, k - 1);
        assert forall|j: int| 0 <= j < rest.len() implies #[trigger] rest[j] != order[k - 1] by {
            let i = lemma_share_turn(order, auto, ch, k - 1, j);
            assert(order[i] != order[k - 1]);
        }
    }
}

/// How many of the first `k` go to the `j`th of `m` channels.
proof fn lemma_share_size(order: Seq<usize>, auto: Seq<usize>, j: int, k: int)
    requires
        0 <= j < auto.len(),
        auto.no_duplicates(),
        0 <= k <= order.len(),
    ensures
        share(order, auto, auto[j] as int, k).len() == k / (auto.len() as int) + (if j < k % (
        auto.len() as int) {
            1int
        } else {
            0
        }),
    decreases k,
{
    let m = auto.len() as int;
    if k > 0 {
        lemma_share_size(order, auto, j, k - 1);
        let (q, r) = ((k - 1) / m, (k - 1) % m);
        vstd::arithmetic::div_mod::lemma_fundamental_div_mod(k - 1, m);
        vstd::arithmetic::div_mod::lemma_mod_bound(k - 1, m);
        assert(auto[r] == auto[j] <==> r == j);
        if r + 1 < m {
            vstd::arithmetic::div_mod::lemma_fundamental_div_mod_converse(k, m, q, r + 1);
        } else {
            assert((q + 1) * m == m * q + m) by (nonlinear_arith);
            assert(k == (q + 1) * m + 0);
            vstd::arithmetic::div_mod::lemma_fundamental_div_mod_converse(k, m, q + 1, 0);
        }
    } else {
        vstd::arithmetic::div_mod::lemma_small_mod(0, m as nat);
        vstd::arithmetic::div_mod::lemma_div_basics(m);
    }
}

proof fn lemma_auto_distinct(manual: Seq<Manual>, n: int)
    requires
        n <= usize::MAX,
    ensures
        auto_channels(manual, n).no_duplicates(),
        forall|i: int|
            0 <= i < auto_channels(manual, n).len() ==> 1 <= #[trigger] auto_channels(manual, n)[i]
                <= n,
    decreases n,
{
    if n > 0 {
        lemma_auto_distinct(manual, n - 1);
    }
}

/// The deal is fair: no automatic channel gets more than one program more than another.
pub proof fn shares_are_even(files: Seq<FileInfo>, manual: Seq<Manual>, n: int, i: int, j: int)
    requires
        n <= usize::MAX,
        0 <= i < auto_channels(manual, n).len(),
        0 <= j < auto_channels(manual, n).len(),
    ensures
        ({
            let (order, auto) = (deal_order(files, manual), auto_channels(manual, n));
            let k = order.len() as int;
            let a = share(order, auto, auto[i] as int, k).len();
            let b = share(order, auto, auto[j] as int, k).len();
            a <= b + 1
        }),
{
    let (order, auto) = (deal_order(files, manual), auto_channels(manual, n));
    lemma_auto_distinct(manual, n);
    lemma_share_size(order, auto, i, order.len() as int);
    lemma_share_size(order, auto, j, order.len() as int);
}

proof fn lemma_free_files(files: Seq<FileInfo>, manual: Seq<Manual>, n: int)
    requires
        0 <= n <= files.len(),
        files.len() <= usize::MAX,
    ensures
        free_files(files, manual, n).no_duplicates(),
        forall|f: usize|
            free_files(files, manual, n).contains(f) <==> f < n && !files[f as int].bumper
                && !is_pinned(manual, f as int),
    decreases n,
{
    if n > 0 {
        lemma_free_files(files, manual, n - 1);
        let rest = free_files(files, manual, n - 1);
        let all = free_files(files, manual, n);
        let x = (n - 1) as usize;
        assert(x == n - 1);
        assert(!rest.contains(x));
        if !files[n - 1].bumper && !is_pinned(manual, n - 1) {
            assert(all == rest.push(x));
            assert forall|f: usize| all.contains(f) <==> rest.contains(f) || f == x by {
                if all.contains(f) {
                    let j = choose|j: int| 0 <= j < all.len() && all[j] == f;
                    if j < rest.len() {
                        assert(rest[j] == f);
                    }
                }
                if rest.contains(f) {
                    let j = choose|j: int| 0 <= j < rest.len() && rest[j] == f;
                    assert(all[j] == f);
                }
                assert(all[rest.len() as int] == x);
            }
        }
    }
}

/// A program that no lineup channel has for its own plays on one automatic channel, once per loop,
/// and on no other channel.
pub proof fn free_programs_play_on_one_channel(
    files: Seq<FileInfo>,
    n: nat,
    styles: Seq<ChanStyle>,
    nets: Seq<Network>,
    manual: Seq<Manual>,
    f: usize,
) -> (c: int)
    requires
        n <= usize::MAX,
        files.len() <= usize::MAX,
        lineup_fits(manual, n as int, files.len() as int),
        f < files.len(),
        !files[f as int].bumper,
        !is_pinned(manual, f as int),
        auto_channels(manual, n as int).len() > 0,
    ensures
        0 <= c < n,
        entry_for(manual, c + 1) is None,
        programs_on(files, n, styles, nets, manual, c).no_duplicates(),
        forall|d: int|
            0 <= d < n ==> (#[trigger] programs_on(files, n, styles, nets, manual, d).contains(f)
                <==> d == c),
{
    let free = free_files(files, manual, files.len() as int);
    let order = deal_order(files, manual);
    let auto = auto_channels(manual, n as int);
    lemma_free_files(files, manual, files.len() as int);
    shuffling_permutes(free, DEAL_SEED);
    lemma_same_elements(order, free);
    lemma_auto_channels(manual, n as int);
    assert(order.contains(f));
    let i = choose|i: int| 0 <= i < order.len() && order[i] == f;
    let a = i % (auto.len() as int);
    assert(1 <= auto[a] <= n);
    let c = auto[a] - 1;
    channels_play_what_they_are_dealt(files, n, styles, nets, manual, c);
    lemma_share_distinct(order, auto, c + 1, order.len() as int);
    assert forall|d: int| 0 <= d < n implies (#[trigger] programs_on(
        files,
        n,
        styles,
        nets,
        manual,
        d,
    ).contains(f) <==> d == c) by {
        channels_play_what_they_are_dealt(files, n, styles, nets, manual, d);
        let dealt_to = share(order, auto, d + 1, order.len() as int);
        lemma_entry_for(manual, d + 1);
        if let Some(m) = entry_for(manual, d + 1) {
            lineup_channels_play_their_own(files, m);
            if m.files@.contains(f) {
                let k = choose|k: int|
                    0 <= k < manual.len() && #[trigger] manual[k] == m && m.channel == d + 1;
                let j = choose|j: int| 0 <= j < m.files@.len() && m.files@[j] == f;
                assert(manual[k].files@[j] == f);
            }
        } else if d != c {
            if dealt_to.contains(f) {
                let k = choose|k: int| 0 <= k < dealt_to.len() && dealt_to[k] == f;
                let j = lemma_share_turn(order, auto, d + 1, order.len() as int, k);
                assert(order[j] == order[i]);
            }
        } else {
            let k = lemma_turn_share(order, auto, d + 1, order.len() as int, i);
            assert(dealt_to[k] == f);
        }
    }
    c
}

/// The idents that a folder has, as positions among the files.
proof fn lemma_folder_idents(files: Seq<FileInfo>, n: int, key: Seq<char>)
    requires
        0 <= n <= files.len(),
        files.len() <= usize::MAX,
    ensures
        forall|i: int|
            0 <= i < folder_idents(files, n, key).len() ==> {
                let b = #[trigger] folder_idents(files, n, key)[i] as int;
                b < n && files[b].bumper && folder_key(files[b]) == key
            },
        forall|b: int|
            0 <= b < n && (#[trigger] files[b]).bumper && folder_key(files[b]) == key
                ==> folder_idents(files, n, key).len() > 0,
    decreases n,
{
    if n > 0 {
        lemma_folder_idents(files, n - 1, key);
    }
}

proof fn lemma_ident_files(files: Seq<FileInfo>, n: int)
    requires
        0 <= n <= files.len(),
        files.len() <= usize::MAX,
    ensures
        forall|i: int|
            0 <= i < ident_files(files, n).len() ==> {
                let b = #[trigger] ident_files(files, n)[i] as int;
                b < n && files[b].bumper
            },
        forall|b: int|
            0 <= b < n && (#[trigger] files[b]).bumper ==> ident_files(files, n).len() > 0,
    decreases n,
{
    if n > 0 {
        lemma_ident_files(files, n - 1);
    }
}

/// The lineup leaves channel `ch` to the idents of its own network.
pub open spec fn takes_own_idents(manual: Seq<Manual>, ch: int) -> bool {
    entry_for(manual, ch) matches Some(m) ==> !names_folder(m.idents@) && lowercase(
        trimmed(m.idents@),
    ) != "off"@
}

/// A channel that is left to its own network's idents has one behind every program: of the
/// network's own folder, as long as that has any, else of any folder.
pub proof fn idents_come_from_the_network(
    files: Seq<FileInfo>,
    n: nat,
    styles: Seq<ChanStyle>,
    nets: Seq<Network>,
    manual: Seq<Manual>,
    c: int,
    b: int,
)
    requires
        n <= usize::MAX,
        files.len() <= usize::MAX,
        lineup_fits(manual, n as int, files.len() as int),
        0 <= c < n,
        takes_own_idents(manual, c + 1),
        0 <= b < files.len(),
        files[b].bumper,
    ensures
        ({
            let key = network_folder(styles, nets, c + 1);
            let list = playlists(files, n, styles, nets, manual)[c];
            &&& list.len() % 2 == 0
            &&& programs_on(files, n, styles, nets, manual, c) == programs_in(list, true)
            &&& forall|i: int|
                0 <= i < list.len() && i % 2 == 1 ==> {
                    let x = #[trigger] list[i] as int;
                    &&& x < files.len() && files[x].bumper
                    &&& folder_key(files[b]) == key ==> folder_key(files[x]) == key
                }
        }),
{
    let key = network_folder(styles, nets, c + 1);
    let all = ident_files(files, files.len() as int);
    let own = folder_idents(files, files.len() as int, key);
    channels_play_what_they_are_dealt(files, n, styles, nets, manual, c);
    lemma_folder_idents(files, files.len() as int, key);
    lemma_ident_files(files, files.len() as int);
    let pool = ident_pool(files, key);
    assert(channel_pool(files, manual, styles, nets, c + 1) == Some(pool));
    let list = playlists(files, n, styles, nets, manual)[c];
    assert forall|i: int| 0 <= i < list.len() && i % 2 == 1 implies {
        let x = #[trigger] list[i] as int;
        &&& x < files.len() && files[x].bumper
        &&& folder_key(files[b]) == key ==> folder_key(files[x]) == key
    } by {
        assert(pool.contains(list[i]));
        let k = choose|k: int| 0 <= k < pool.len() && pool[k] == list[i];
        if own.len() > 0 {
            assert(own[k] == list[i]);
        } else {
            assert(all[k] == list[i]);
        }
    }
}

/// On a channel for which the lineup names a folder, an ident follows every program, and no ident
/// of the library fits the name better than those that do. So a folder of just that name, where it
/// has idents, is the only one they come from: "MTV (US)" is not mixed with "MTV (UK)".
pub proof fn named_folders_are_kept(
    files: Seq<FileInfo>,
    n: nat,
    styles: Seq<ChanStyle>,
    nets: Seq<Network>,
    manual: Seq<Manual>,
    c: int,
    b: int,
)
    requires
        n <= usize::MAX,
        files.len() <= usize::MAX,
        lineup_fits(manual, n as int, files.len() as int),
        0 <= c < n,
        entry_for(manual, c + 1) matches Some(m) && names_folder(m.idents@),
        0 <= b < files.len(),
        files[b].bumper,
    ensures
        ({
            let m = entry_for(manual, c + 1)->0;
            let list = playlists(files, n, styles, nets, manual)[c];
            &&& list.len() % 2 == 0
            &&& programs_in(list, true) == own_programs(files, m)
            &&& forall|i: int|
                0 <= i < list.len() && i % 2 == 1 ==> {
                    let x = #[trigger] list[i] as int;
                    &&& x < files.len() && files[x].bumper
                    &&& fit(files[x], m.idents@) >= fit(files[b], m.idents@)
                    &&& text_of(files[b].folder) == Some(m.idents@) ==> text_of(files[x].folder)
                        == Some(m.idents@)
                }
        }),
{
    let wish = entry_for(manual, c + 1)->0.idents@;
    let len = files.len() as int;
    let how = best_fit(files, len, wish);
    channels_play_what_they_are_dealt(files, n, styles, nets, manual, c);
    lemma_ident_files(files, len);
    lemma_fitting(files, len, wish);
    lemma_fits(files, len, wish, how);
    let pool = named_pool(files, wish);
    assert(channel_pool(files, manual, styles, nets, c + 1) == Some(pool));
    let list = playlists(files, n, styles, nets, manual)[c];
    assert forall|i: int| 0 <= i < list.len() && i % 2 == 1 implies {
        let x = #[trigger] list[i] as int;
        &&& x < files.len() && files[x].bumper
        &&& fit(files[x], wish) >= fit(files[b], wish)
        &&& text_of(files[b].folder) == Some(wish) ==> text_of(files[x].folder) == Some(wish)
    } by {
        assert(pool.contains(list[i]));
        let k = choose|k: int| 0 <= k < pool.len() && pool[k] == list[i];
        assert(fitting(files, len, wish, how)[k] == list[i]);
    }
}

// ---------------------------------------------------------------- which ident follows

/// No ident of a pool is left out: whichever it is, from some state of the generator it is the one
/// that follows the program.
pub proof fn every_ident_can_follow(list: Seq<usize>, f: usize, p: Seq<usize>, j: int) -> (rng: u64)
    requires
        0 <= j < p.len() <= 0x8000_0000,
    ensures
        air(list, rng, f, Some(p)).0.len() == list.len() + 2,
        air(list, rng, f, Some(p)).0.take(list.len() as int) == list,
        air(list, rng, f, Some(p)).0[list.len() as int] == f,
        air(list, rng, f, Some(p)).0.last() == p[j],
{
    let rng = every_number_is_drawn(j as u64);
    vstd::arithmetic::div_mod::lemma_small_mod(j as nat, p.len());
    assert(air(list, rng, f, Some(p)).0.take(list.len() as int) =~= list);
    rng
}

/// Where a library has idents, every channel that the lineup leaves to the deal has a pool of them.
proof fn lemma_auto_pool(
    files: Seq<FileInfo>,
    manual: Seq<Manual>,
    styles: Seq<ChanStyle>,
    nets: Seq<Network>,
    ch: int,
    b: int,
)
    requires
        files.len() <= usize::MAX,
        0 <= b < files.len(),
        files[b].bumper,
        entry_for(manual, ch) is None,
    ensures
        channel_pool(files, manual, styles, nets, ch) == Some(
            ident_pool(files, network_folder(styles, nets, ch)),
        ),
{
    lemma_ident_files(files, files.len() as int);
}

/// Turn `i` of a playlist has been played out: program `f`, then the entry of the pool `p` that the
/// generator's state `x` draws.
spec fn turn_done(list: Seq<usize>, i: int, f: usize, p: Seq<usize>, x: u64) -> bool {
    &&& 2 * i + 1 < list.len()
    &&& list[2 * i] == f
    &&& list[2 * i + 1] == p[draw(x) as int % (p.len() as int)]
}

/// What has been put on a playlist stays as more is added.
proof fn lemma_turn_stays(
    list: Seq<usize>,
    i: int,
    f: usize,
    p: Seq<usize>,
    x: u64,
    rng: u64,
    g: usize,
)
    requires
        0 <= i,
        turn_done(list, i, f, p, x),
    ensures
        turn_done(air(list, rng, g, Some(p)).0, i, f, p, x),
{
}

proof fn lemma_turn_new(list: Seq<usize>, i: int, f: usize, p: Seq<usize>, rng: u64)
    requires
        0 <= i,
        list.len() == 2 * i,
    ensures
        turn_done(air(list, rng, f, Some(p)).0, i, f, p, lcg(rng)),
{
}

/// The lists after `k` turns of the deal, where every channel of the deal has idents: turn `j` has
/// put the `j`th program and the ident that its own step of the generator draws.
proof fn lemma_dealt_draws(
    n: nat,
    order: Seq<usize>,
    auto: Seq<usize>,
    pools: Seq<Option<Seq<usize>>>,
    rng: u64,
    k: int,
    j: int,
)
    requires
        auto.len() > 0,
        auto.no_duplicates(),
        0 <= j < k <= order.len(),
        pools.len() == n,
        pools_filled(pools),
        forall|i: int|
            0 <= i < auto.len() ==> 1 <= #[trigger] auto[i] <= n && pools[auto[i] - 1] is Some,
    ensures
        ({
            let m = auto.len() as int;
            let c = auto[j % m] - 1;
            turn_done(
                dealt(n, order, auto, pools, rng, k).0[c],
                j / m,
                order[j],
                pools[c]->0,
                steps_on(rng, (j + 1) as nat),
            )
        }),
    decreases k,
{
    let m = auto.len() as int;
    let (lists, r) = dealt(n, order, auto, pools, rng, k - 1);
    lemma_dealt(n, order, auto, pools, rng, k - 1);
    lemma_dealt_steps(n, order, auto, pools, rng, k - 1);
    let a = (k - 1) % m;
    let c = auto[a] - 1;
    assert(1 <= auto[a] <= n);
    let p = pools[c]->0;
    let e = j % m;
    let d = auto[e] - 1;
    assert(1 <= auto[e] <= n);
    vstd::arithmetic::div_mod::lemma_div_pos_is_pos(j, m);
    if j < k - 1 {
        lemma_dealt_draws(n, order, auto, pools, rng, k - 1, j);
        if d == c {
            lemma_turn_stays(
                lists[c],
                j / m,
                order[j],
                p,
                steps_on(rng, (j + 1) as nat),
                r,
                order[k - 1],
            );
        }
    } else {
        lemma_share_size(order, auto, a, k - 1);
        assert(idents_between(lists[c], pools[c]));
        assert(programs_in(lists[c], true) == share(order, auto, c + 1, k - 1));
        assert(programs_in(lists[c], true).len() == lists[c].len() / 2);
        assert(lists[c].len() == 2 * (j / m));
        lemma_turn_new(lists[c], j / m, order[j], p, r);
    }
}

/// Every turn of the deal takes one step of the generator, where every channel of it has idents.
proof fn lemma_dealt_steps(
    n: nat,
    order: Seq<usize>,
    auto: Seq<usize>,
    pools: Seq<Option<Seq<usize>>>,
    rng: u64,
    k: int,
)
    requires
        auto.len() > 0,
        0 <= k,
        pools.len() == n,
        forall|i: int|
            0 <= i < auto.len() ==> 1 <= #[trigger] auto[i] <= n && pools[auto[i] - 1] is Some,
    ensures
        dealt(n, order, auto, pools, rng, k).1 == steps_on(rng, k as nat),
    decreases k,
{
    if k > 0 {
        lemma_dealt_steps(n, order, auto, pools, rng, k - 1);
        let a = (k - 1) % (auto.len() as int);
        assert(1 <= auto[a] <= n);
    }
}

/// How many steps the generator takes before the deal begins: one for every program that is
/// shuffled but the first.
pub open spec fn shuffle_steps(files: Seq<FileInfo>, manual: Seq<Manual>) -> nat {
    let len = free_files(files, manual, files.len() as int).len();
    if len == 0 {
        0
    } else {
        (len - 1) as nat
    }
}

/// Which ident follows which program on the channels of the deal: the `k`th program of the shuffled
/// library goes to the `k`th automatic channel, round-robin, and the ident behind it is the entry of
/// that channel's pool that the `k`th step of the generator after the shuffle draws.
pub proof fn each_dealt_program_draws_its_ident(
    files: Seq<FileInfo>,
    n: nat,
    styles: Seq<ChanStyle>,
    nets: Seq<Network>,
    manual: Seq<Manual>,
    k: int,
    b: int,
)
    requires
        n <= usize::MAX,
        files.len() <= usize::MAX,
        lineup_fits(manual, n as int, files.len() as int),
        auto_channels(manual, n as int).len() > 0,
        0 <= k < deal_order(files, manual).len(),
        0 <= b < files.len(),
        files[b].bumper,
    ensures
        ({
            let auto = auto_channels(manual, n as int);
            let m = auto.len() as int;
            let c = auto[k % m] - 1;
            let list = playlists(files, n, styles, nets, manual)[c];
            let p = ident_pool(files, network_folder(styles, nets, c + 1));
            let x = steps_on(DEAL_SEED, shuffle_steps(files, manual) + k as nat + 1);
            &&& 0 <= c < n
            &&& p.len() > 0
            &&& 2 * (k / m) + 1 < list.len()
            &&& list[2 * (k / m)] == deal_order(files, manual)[k]
            &&& list[2 * (k / m) + 1] == p[draw(x) as int % (p.len() as int)]
        }),
{
    let pools = channel_pools(files, manual, styles, nets, n);
    let free = free_files(files, manual, files.len() as int);
    let (order, r) = shuffled(free, DEAL_SEED);
    let auto = auto_channels(manual, n as int);
    let m = auto.len() as int;
    let len = order.len() as int;
    let (lists, r2) = dealt(n, order, auto, pools, r, len);
    lemma_pools_filled(files, manual, styles, nets, n);
    lemma_auto_channels(manual, n as int);
    lemma_auto_distinct(manual, n as int);
    assert forall|i: int| 0 <= i < auto.len() implies 1 <= #[trigger] auto[i] <= n && pools[auto[i]
        - 1] is Some by {
        lemma_auto_pool(files, manual, styles, nets, auto[i] as int, b);
    }
    lemma_dealt_draws(n, order, auto, pools, r, len, k);
    let a = k % m;
    assert(1 <= auto[a] <= n);
    let c = auto[a] - 1;
    lemma_auto_pool(files, manual, styles, nets, c + 1, b);
    assert(pools[c] == Some(ident_pool(files, network_folder(styles, nets, c + 1))));
    assert(lists[c][2 * (k / m)] == order[k]);
    a_shuffle_takes_its_steps(free, DEAL_SEED);
    shuffling_permutes(free, DEAL_SEED);
    steps_add_up(DEAL_SEED, shuffle_steps(files, manual), (k + 1) as nat);
    lemma_lists_kept(files, n, styles, nets, manual, c);
}

/// The lineup's channels do not change what the others were dealt.
proof fn lemma_lists_kept(
    files: Seq<FileInfo>,
    n: nat,
    styles: Seq<ChanStyle>,
    nets: Seq<Network>,
    manual: Seq<Manual>,
    c: int,
)
    requires
        n <= usize::MAX,
        lineup_fits(manual, n as int, files.len() as int),
        auto_channels(manual, n as int).len() > 0,
        0 <= c < n,
        entry_for(manual, c + 1) is None,
    ensures
        ({
            let pools = channel_pools(files, manual, styles, nets, n);
            let (order, r) = shuffled(free_files(files, manual, files.len() as int), DEAL_SEED);
            let auto = auto_channels(manual, n as int);
            playlists(files, n, styles, nets, manual)[c] == dealt(
                n,
                order,
                auto,
                pools,
                r,
                order.len() as int,
            ).0[c]
        }),
{
    let pools = channel_pools(files, manual, styles, nets, n);
    let (order, r) = shuffled(free_files(files, manual, files.len() as int), DEAL_SEED);
    let auto = auto_channels(manual, n as int);
    let (lists, r2) = dealt(n, order, auto, pools, r, order.len() as int);
    lemma_pools_filled(files, manual, styles, nets, n);
    lemma_auto_channels(manual, n as int);
    lemma_dealt(n, order, auto, pools, r, order.len() as int);
    assert forall|d: int| 0 <= d < n && entry_for(manual, d + 1) is Some implies (
    #[trigger] lists[d]).len() == 0 by {
        assert(idents_between(lists[d], pools[d]));
        lemma_share_empty(order, auto, d + 1, order.len() as int);
        assert(programs_in(lists[d], pools[d] is Some).len() == 0);
    }
    lemma_with_lineup(lists, r2, files, manual, pools, n as int, n as int);
    assert(playlists(files, n, styles, nets, manual)[c] == lists[c]);
}

/// How many idents the lineup's channels up to `ch` have drawn.
pub open spec fn lineup_draws(
    files: Seq<FileInfo>,
    manual: Seq<Manual>,
    styles: Seq<ChanStyle>,
    nets: Seq<Network>,
    ch: int,
) -> nat
    decreases ch,
{
    if ch <= 0 {
        0
    } else {
        lineup_draws(files, manual, styles, nets, ch - 1) + (match (
            entry_for(manual, ch),
            channel_pool(files, manual, styles, nets, ch),
        ) {
            (Some(m), Some(p)) => own_programs(files, m).len(),
            _ => 0,
        })
    }
}

proof fn lemma_aired_draws(
    rng: u64,
    items: Seq<usize>,
    pool: Option<Seq<usize>>,
    k: int,
    i: int,
)
    requires
        0 <= k <= items.len(),
        pool matches Some(p) ==> p.len() > 0,
    ensures
        aired(Seq::empty(), rng, items, pool, k).1 == (if pool is Some {
            steps_on(rng, k as nat)
        } else {
            rng
        }),
        pool is Some && 0 <= i < k ==> turn_done(
            aired(Seq::empty(), rng, items, pool, k).0,
            i,
            items[i],
            pool->0,
            steps_on(rng, (i + 1) as nat),
        ),
        pool is Some ==> aired(Seq::empty(), rng, items, pool, k).0.len() == 2 * k,
    decreases k,
{
    if k > 0 {
        lemma_aired_draws(rng, items, pool, k - 1, i);
        let (l, r) = aired(Seq::empty(), rng, items, pool, k - 1);
        if let Some(p) = pool {
            if 0 <= i < k - 1 {
                lemma_turn_stays(l, i, items[i], p, steps_on(rng, (i + 1) as nat), r, items[k - 1]);
            } else if i == k - 1 {
                lemma_turn_new(l, i, items[i], p, r);
            }
        }
    }
}

proof fn lemma_lineup_draws(
    lists: Seq<Seq<usize>>,
    rng: u64,
    files: Seq<FileInfo>,
    manual: Seq<Manual>,
    styles: Seq<ChanStyle>,
    nets: Seq<Network>,
    n: nat,
    ch: int,
)
    requires
        0 <= ch <= n,
        lists.len() == n,
        forall|c: int|
            0 <= c < n && entry_for(manual, c + 1) is Some ==> (#[trigger] lists[c]).len() == 0,
        forall|c: int|
            0 <= c < n ==> idents_between(
                #[trigger] lists[c],
                channel_pools(files, manual, styles, nets, n)[c],
            ),
    ensures
        with_lineup(
            lists,
            rng,
            files,
            manual,
            channel_pools(files, manual, styles, nets, n),
            ch,
        ).1 == steps_on(rng, lineup_draws(files, manual, styles, nets, ch)),
    decreases ch,
{
    if ch > 0 {
        let pools = channel_pools(files, manual, styles, nets, n);
        lemma_lineup_draws(lists, rng, files, manual, styles, nets, n, ch - 1);
        lemma_pools_filled(files, manual, styles, nets, n);
        lemma_with_lineup(lists, rng, files, manual, pools, ch - 1, n as int);
        let (l, r) = with_lineup(lists, rng, files, manual, pools, ch - 1);
        assert(l[ch - 1] == lists[ch - 1]);
        if let Some(m) = entry_for(manual, ch) {
            let items = own_programs(files, m);
            assert(lists[ch - 1].len() == 0);
            assert(l[ch - 1] =~= Seq::empty());
            lemma_aired_draws(r, items, pools[ch - 1], items.len() as int, 0);
            steps_add_up(rng, lineup_draws(files, manual, styles, nets, ch - 1), items.len());
        }
    }
}

/// What the channels of the lineup leave of a list once it is theirs.
proof fn lemma_lineup_keeps(
    lists: Seq<Seq<usize>>,
    rng: u64,
    files: Seq<FileInfo>,
    manual: Seq<Manual>,
    pools: Seq<Option<Seq<usize>>>,
    c: int,
    ch: int,
)
    requires
        0 <= c < ch <= lists.len(),
    ensures
        with_lineup(lists, rng, files, manual, pools, ch).0.len() == lists.len(),
        with_lineup(lists, rng, files, manual, pools, ch).0[c] == with_lineup(
            lists,
            rng,
            files,
            manual,
            pools,
            c + 1,
        ).0[c],
    decreases ch,
{
    if c + 1 < ch {
        lemma_lineup_keeps(lists, rng, files, manual, pools, c, ch - 1);
    } else {
        lemma_lineup_length(lists, rng, files, manual, pools, ch);
    }
}

proof fn lemma_lineup_length(
    lists: Seq<Seq<usize>>,
    rng: u64,
    files: Seq<FileInfo>,
    manual: Seq<Manual>,
    pools: Seq<Option<Seq<usize>>>,
    ch: int,
)
    requires
        ch <= lists.len(),
    ensures
        with_lineup(lists, rng, files, manual, pools, ch).0.len() == lists.len(),
    decreases ch,
{
    if ch > 0 {
        lemma_lineup_length(lists, rng, files, manual, pools, ch - 1);
    }
}

/// Which ident follows which program on the channels of the lineup: they come behind the deal, by
/// ascending number, and the ident behind the `i`th program of one is the entry of its pool that the
/// generator draws next.
pub proof fn each_lineup_program_draws_its_ident(
    files: Seq<FileInfo>,
    n: nat,
    styles: Seq<ChanStyle>,
    nets: Seq<Network>,
    manual: Seq<Manual>,
    c: int,
    i: int,
)
    requires
        n <= usize::MAX,
        files.len() <= usize::MAX,
        lineup_fits(manual, n as int, files.len() as int),
        0 <= c < n,
        entry_for(manual, c + 1) matches Some(m) && i < own_programs(files, m).len(),
        0 <= i,
        channel_pool(files, manual, styles, nets, c + 1) is Some,
    ensures
        ({
            let list = playlists(files, n, styles, nets, manual)[c];
            let p = channel_pool(files, manual, styles, nets, c + 1)->0;
            let dealt_out = if auto_channels(manual, n as int).len() > 0 {
                deal_order(files, manual).len()
            } else {
                0
            };
            let x = steps_on(
                DEAL_SEED,
                shuffle_steps(files, manual) + dealt_out + lineup_draws(
                    files,
                    manual,
                    styles,
                    nets,
                    c,
                ) + i as nat + 1,
            );
            &&& p.len() > 0
            &&& 2 * i + 1 < list.len()
            &&& list[2 * i] == own_programs(files, entry_for(manual, c + 1)->0)[i]
            &&& list[2 * i + 1] == p[draw(x) as int % (p.len() as int)]
        }),
{
    let pools = channel_pools(files, manual, styles, nets, n);
    let free = free_files(files, manual, files.len() as int);
    let (order, r) = shuffled(free, DEAL_SEED);
    let auto = auto_channels(manual, n as int);
    let len = order.len() as int;
    let (lists, r2) = dealt(n, order, auto, pools, r, len);
    let all = ident_files(files, files.len() as int);
    lemma_ident_files(files, files.len() as int);
    let b = all[0] as int;
    assert(b < files.len() && files[b].bumper);
    lemma_pools_filled(files, manual, styles, nets, n);
    lemma_auto_channels(manual, n as int);
    a_shuffle_takes_its_steps(free, DEAL_SEED);
    let start = shuffle_steps(files, manual);
    let dealt_out: nat = if auto.len() > 0 {
        order.len()
    } else {
        0
    };
    if auto.len() > 0 {
        assert forall|a: int| 0 <= a < auto.len() implies 1 <= #[trigger] auto[a] <= n && pools[
        auto[a] - 1] is Some by {
            lemma_auto_pool(files, manual, styles, nets, auto[a] as int, b);
        }
        lemma_dealt(n, order, auto, pools, r, len);
        lemma_dealt_steps(n, order, auto, pools, r, len);
        steps_add_up(DEAL_SEED, start, order.len());
    }
    assert(r2 == steps_on(DEAL_SEED, start + dealt_out));
    assert forall|d: int| 0 <= d < n implies idents_between(#[trigger] lists[d], pools[d]) by {
        if auto.len() > 0 {
            assert(idents_between(dealt(n, order, auto, pools, r, len).0[d], pools[d]));
        }
    }
    assert forall|d: int| 0 <= d < n && entry_for(manual, d + 1) is Some implies (
    #[trigger] lists[d]).len() == 0 by {
        if auto.len() > 0 {
            assert(idents_between(lists[d], pools[d]));
            lemma_share_empty(order, auto, d + 1, len);
            assert(programs_in(lists[d], pools[d] is Some).len() == 0);
        }
    }
    let drawn = lineup_draws(files, manual, styles, nets, c);
    lemma_lineup_draws(lists, r2, files, manual, styles, nets, n, c);
    lemma_with_lineup(lists, r2, files, manual, pools, c, n as int);
    let (l, y) = with_lineup(lists, r2, files, manual, pools, c);
    assert(l[c] == lists[c]);
    assert(l[c] =~= Seq::empty());
    let m = entry_for(manual, c + 1)->0;
    let items = own_programs(files, m);
    assert(pools[c] == channel_pool(files, manual, styles, nets, c + 1));
    lemma_aired_draws(y, items, pools[c], items.len() as int, i);
    steps_add_up(DEAL_SEED, start + dealt_out, drawn);
    steps_add_up(DEAL_SEED, start + dealt_out + drawn, (i + 1) as nat);
    lemma_lineup_keeps(lists, r2, files, manual, pools, c, n as int);
}

// ---------------------------------------------------------------- what the deal depends on

/// Two libraries have the same files at the same places, as far as a schedule depends on them.
pub open spec fn same_library(a: Seq<FileInfo>, b: Seq<FileInfo>) -> bool {
    a.len() == b.len() && forall|i: int|
        0 <= i < a.len() ==> {
            &&& (#[trigger] a[i]).path@ == (#[trigger] b[i]).path@
            &&& text_of(a[i].folder) == text_of(b[i].folder)
            &&& a[i].duration == b[i].duration
            &&& a[i].bumper == b[i].bumper
        }
}

/// Two lists of networks have the same names at the same places.
pub open spec fn same_names(a: Seq<Network>, b: Seq<Network>) -> bool {
    a.len() == b.len() && forall|i: int|
        0 <= i < a.len() ==> (#[trigger] a[i]).name@ == (#[trigger] b[i]).name@
}

/// Two lineups have the same to say of a channel.
pub open spec fn same_entry(a: Option<Manual>, b: Option<Manual>) -> bool {
    match (a, b) {
        (Some(m), Some(k)) => m.files@ == k.files@ && m.shuffle == k.shuffle && m.idents@
            == k.idents@,
        (None, None) => true,
        _ => false,
    }
}

/// Two lineups are the same map from channels to entries, in whatever order they list them.
pub open spec fn same_lineup(a: Seq<Manual>, b: Seq<Manual>) -> bool {
    forall|ch: int| same_entry(#[trigger] entry_for(a, ch), entry_for(b, ch))
}

proof fn lemma_entry_of(manual: Seq<Manual>, k: int)
    requires
        0 <= k < manual.len(),
        forall|i: int, j: int|
            0 <= i < j < manual.len() ==> (#[trigger] manual[i]).channel != (
            #[trigger] manual[j]).channel,
    ensures
        entry_for(manual, manual[k].channel as int) == Some(manual[k]),
    decreases manual.len(),
{
    if k < manual.len() - 1 {
        assert(manual[manual.len() - 1].channel != manual[k].channel);
        let t = manual.drop_last();
        assert(t[k] == manual[k]);
        lemma_entry_of(t, k);
    }
}

proof fn lemma_pinned_alike(a: Seq<Manual>, b: Seq<Manual>, n: int, count: int, f: int)
    requires
        same_lineup(a, b),
        lineup_fits(a, n, count),
        is_pinned(a, f),
    ensures
        is_pinned(b, f),
{
    let (k, i) = choose|k: int, i: int|
        0 <= k < a.len() && 0 <= i < a[k].files@.len() && #[trigger] a[k].files@[i] == f;
    let ch = a[k].channel as int;
    lemma_entry_of(a, k);
    assert(same_entry(entry_for(a, ch), entry_for(b, ch)));
    lemma_entry_for(b, ch);
    let m = entry_for(b, ch)->0;
    let j = choose|j: int| 0 <= j < b.len() && #[trigger] b[j] == m && m.channel == ch;
    assert(b[j].files@[i] == f);
}

proof fn lemma_files_alike(
    f1: Seq<FileInfo>,
    f2: Seq<FileInfo>,
    m1: Seq<Manual>,
    m2: Seq<Manual>,
    k: int,
    n: int,
)
    requires
        0 <= k <= f1.len(),
        same_library(f1, f2),
        same_lineup(m1, m2),
        lineup_fits(m1, n, f1.len() as int),
        lineup_fits(m2, n, f2.len() as int),
    ensures
        ident_files(f1, k) == ident_files(f2, k),
        free_files(f1, m1, k) == free_files(f2, m2, k),
        forall|key: Seq<char>| #[trigger] folder_idents(f1, k, key) == folder_idents(f2, k, key),
        forall|wish: Seq<char>| #[trigger] best_fit(f1, k, wish) == best_fit(f2, k, wish),
        forall|wish: Seq<char>, how: int| #[trigger]
            fitting(f1, k, wish, how) == fitting(f2, k, wish, how),
    decreases k,
{
    if k > 0 {
        lemma_files_alike(f1, f2, m1, m2, k - 1, n);
        assert(f1[k - 1].bumper == f2[k - 1].bumper);
        assert(folder_key(f1[k - 1]) == folder_key(f2[k - 1]));
        if is_pinned(m1, k - 1) {
            lemma_pinned_alike(m1, m2, n, f1.len() as int, k - 1);
        }
        if is_pinned(m2, k - 1) {
            assert(same_lineup(m2, m1)) by {
                assert forall|ch: int| same_entry(#[trigger] entry_for(m2, ch), entry_for(m1, ch)) by {
                    assert(same_entry(entry_for(m1, ch), entry_for(m2, ch)));
                }
            }
            lemma_pinned_alike(m2, m1, n, f2.len() as int, k - 1);
        }
        assert forall|key: Seq<char>| #[trigger] folder_idents(f1, k, key) == folder_idents(
            f2,
            k,
            key,
        ) by {
            assert(folder_idents(f1, k - 1, key) == folder_idents(f2, k - 1, key));
        }
        let (x, y) = (f1[k - 1], f2[k - 1]);
        assert forall|wish: Seq<char>| #[trigger] fit(x, wish) == fit(y, wish) by {
            assert(text_of(x.folder) == text_of(y.folder));
        }
        assert forall|wish: Seq<char>| #[trigger] best_fit(f1, k, wish) == best_fit(f2, k, wish) by {
            assert(best_fit(f1, k - 1, wish) == best_fit(f2, k - 1, wish));
            assert(fit(x, wish) == fit(y, wish));
        }
        assert forall|wish: Seq<char>, how: int| #[trigger]
            fitting(f1, k, wish, how) == fitting(f2, k, wish, how) by {
            assert(fitting(f1, k - 1, wish, how) == fitting(f2, k - 1, wish, how));
            assert(fit(x, wish) == fit(y, wish));
        }
    }
}

proof fn lemma_auto_alike(m1: Seq<Manual>, m2: Seq<Manual>, n: int)
    requires
        same_lineup(m1, m2),
    ensures
        auto_channels(m1, n) == auto_channels(m2, n),
    decreases n,
{
    if n > 0 {
        lemma_auto_alike(m1, m2, n - 1);
        assert(same_entry(entry_for(m1, n), entry_for(m2, n)));
    }
}

proof fn lemma_lineup_alike(
    lists: Seq<Seq<usize>>,
    rng: u64,
    f1: Seq<FileInfo>,
    f2: Seq<FileInfo>,
    m1: Seq<Manual>,
    m2: Seq<Manual>,
    pools: Seq<Option<Seq<usize>>>,
    ch: int,
)
    requires
        same_library(f1, f2),
        same_lineup(m1, m2),
    ensures
        with_lineup(lists, rng, f1, m1, pools, ch) == with_lineup(lists, rng, f2, m2, pools, ch),
    decreases ch,
{
    if ch > 0 {
        lemma_lineup_alike(lists, rng, f1, f2, m1, m2, pools, ch - 1);
        assert(same_entry(entry_for(m1, ch), entry_for(m2, ch)));
        if let Some(a) = entry_for(m1, ch) {
            let b = entry_for(m2, ch)->0;
            lemma_entry_for(m1, ch);
            lemma_entry_for(m2, ch);
            assert(a.channel == b.channel);
            assert(low_paths(f1) =~= low_paths(f2));
            assert(own_programs(f1, a) == own_programs(f2, b));
        }
    }
}

proof fn lemma_run_time_alike(f1: Seq<FileInfo>, f2: Seq<FileInfo>, list: Seq<usize>)
    requires
        same_library(f1, f2),
        below(list, f1.len() as int),
    ensures
        run_time(f1, list) == run_time(f2, list),
    decreases list.len(),
{
    if list.len() > 0 {
        let t = list.drop_last();
        assert forall|i: int| 0 <= i < t.len() implies #[trigger] t[i] < f1.len() by {
            assert(list[i] < f1.len());
        }
        lemma_run_time_alike(f1, f2, t);
        let x = list[list.len() - 1] as int;
        assert(f1[x].duration == f2[x].duration);
    }
}

/// What the channels play depends on the library, the styles, the networks' names and the lineup
/// as a map, and on nothing else: not on the order in which the lineup lists its channels, nor on
/// when or where the schedules are built.
pub proof fn schedules_depend_on_the_library_alone(
    f1: Seq<FileInfo>,
    f2: Seq<FileInfo>,
    n: nat,
    styles: Seq<ChanStyle>,
    nets1: Seq<Network>,
    nets2: Seq<Network>,
    m1: Seq<Manual>,
    m2: Seq<Manual>,
    r1: Seq<Schedule>,
    r2: Seq<Schedule>,
)
    requires
        same_library(f1, f2),
        same_names(nets1, nets2),
        same_lineup(m1, m2),
        styles_fit(styles, nets1.len() as int),
        lineup_fits(m1, n as int, f1.len() as int),
        lineup_fits(m2, n as int, f2.len() as int),
        r1.map_values(|s: Schedule| s.playlist()) == playlists(f1, n, styles, nets1, m1),
        r2.map_values(|s: Schedule| s.playlist()) == playlists(f2, n, styles, nets2, m2),
        forall|c: int| 0 <= c < r1.len() ==> (#[trigger] r1[c]).laid_out(f1),
        forall|c: int| 0 <= c < r2.len() ==> (#[trigger] r2[c]).laid_out(f2),
    ensures
        playlists(f1, n, styles, nets1, m1) == playlists(f2, n, styles, nets2, m2),
        r1.len() == r2.len(),
        forall|c: int|
            0 <= c < r1.len() ==> (#[trigger] r1[c]).programs@ == (#[trigger] r2[c]).programs@
                && r1[c].total == r2[c].total,
{
    let len = f1.len() as int;
    lemma_files_alike(f1, f2, m1, m2, len, n as int);
    lemma_auto_alike(m1, m2, n as int);
    let p1 = channel_pools(f1, m1, styles, nets1, n);
    let p2 = channel_pools(f2, m2, styles, nets2, n);
    assert forall|c: int| 0 <= c < n implies #[trigger] p1[c] == p2[c] by {
        let ch = c + 1;
        assert(same_entry(entry_for(m1, ch), entry_for(m2, ch)));
        if ch < styles.len() {
            let x = styles[ch].net as int;
            assert(nets1[x].name@ == nets2[x].name@);
        }
        let key = network_folder(styles, nets1, ch);
        assert(key == network_folder(styles, nets2, ch));
        assert(folder_idents(f1, len, key) == folder_idents(f2, len, key));
        if let Some(m) = entry_for(m1, ch) {
            let wish = m.idents@;
            let how = best_fit(f1, len, wish);
            assert(best_fit(f2, len, wish) == how);
            assert(fitting(f1, len, wish, how) == fitting(f2, len, wish, how));
        }
    }
    assert(p1 =~= p2);
    let (order, r) = shuffled(free_files(f1, m1, len), DEAL_SEED);
    let auto = auto_channels(m1, n as int);
    let (lists, x) = dealt(n, order, auto, p1, r, order.len() as int);
    lemma_lineup_alike(lists, x, f1, f2, m1, m2, p1, n as int);
    let q1 = r1.map_values(|s: Schedule| s.playlist());
    let q2 = r2.map_values(|s: Schedule| s.playlist());
    assert(q1.len() == r1.len() && q2.len() == r2.len());
    assert forall|c: int| 0 <= c < r1.len() implies (#[trigger] r1[c]).programs@ == (
    #[trigger] r2[c]).programs@ && r1[c].total == r2[c].total by {
        let (s1, s2) = (r1[c], r2[c]);
        let list = s1.playlist();
        assert(q1[c] == list && q2[c] == s2.playlist());
        assert(s1.laid_out(f1) && s2.laid_out(f2));
        assert(list.len() == s1.programs@.len());
        assert(s2.playlist().len() == s2.programs@.len());
        assert forall|i: int| 0 <= i < list.len() implies #[trigger] list[i] < f1.len() by {
            assert(s1.programs@[i].file == list[i]);
        }
        lemma_run_time_alike(f1, f2, list);
        assert forall|i: int| 0 <= i < list.len() implies s1.programs@[i] == s2.programs@[i] by {
            assert(s1.programs@[i].file == list[i]);
            assert(s2.programs@[i].file == s2.playlist()[i]);
            assert forall|j: int| 0 <= j < i implies #[trigger] list.take(i)[j] < f1.len() by {
                assert(list[j] < f1.len());
            }
            lemma_run_time_alike(f1, f2, list.take(i));
        }
        assert(s1.programs@ =~= s2.programs@);
    }
}

// ---------------------------------------------------------------- which idents a channel has

/// An ident from a folder whose cleaned name is this, whatever the case of its letters.
pub open spec fn is_ident_of(f: FileInfo, name: Seq<char>) -> bool {
    f.bumper && f.folder is Some && lowercase(cleaned(f.folder->0@)) == lowercase(cleaned(name))
}

proof fn lemma_pool_order(files: Seq<FileInfo>, n: int, key: Seq<char>)
    requires
        0 <= n <= files.len(),
        files.len() <= usize::MAX,
    ensures
        forall|i: int, j: int|
            0 <= i < j < folder_idents(files, n, key).len() ==> #[trigger] folder_idents(
                files,
                n,
                key,
            )[i] < #[trigger] folder_idents(files, n, key)[j],
        forall|i: int, j: int|
            0 <= i < j < ident_files(files, n).len() ==> #[trigger] ident_files(files, n)[i]
                < #[trigger] ident_files(files, n)[j],
        forall|b: int|
            0 <= b < n && (#[trigger] files[b]).bumper ==> ident_files(files, n).contains(
                b as usize,
            ),
        forall|b: int|
            0 <= b < n && (#[trigger] files[b]).bumper && folder_key(files[b]) == key
                ==> folder_idents(files, n, key).contains(b as usize),
    decreases n,
{
    if n > 0 {
        lemma_pool_order(files, n - 1, key);
        lemma_folder_idents(files, n - 1, key);
        lemma_ident_files(files, n - 1);
        let (own, rest) = (folder_idents(files, n, key), folder_idents(files, n - 1, key));
        let (all, some) = (ident_files(files, n), ident_files(files, n - 1));
        assert forall|b: int| 0 <= b < n && (#[trigger] files[b]).bumper implies all.contains(
            b as usize,
        ) by {
            if b < n - 1 {
                let k = choose|k: int| 0 <= k < some.len() && some[k] == b as usize;
                assert(all[k] == b as usize);
            } else {
                assert(all[some.len() as int] == b as usize);
            }
        }
        assert forall|b: int|
            0 <= b < n && (#[trigger] files[b]).bumper && folder_key(files[b]) == key implies
            own.contains(b as usize) by {
            if b < n - 1 {
                let k = choose|k: int| 0 <= k < rest.len() && rest[k] == b as usize;
                assert(own[k] == b as usize);
            } else {
                assert(own[rest.len() as int] == b as usize);
            }
        }
    }
}

/// The idents of a channel that is left to its own network: in the order of the library, all those
/// from the folder of that network, and no other, where there is one; else all that there are.
pub proof fn a_channel_has_the_idents_of_its_network(
    files: Seq<FileInfo>,
    manual: Seq<Manual>,
    styles: Seq<ChanStyle>,
    nets: Seq<Network>,
    ch: int,
    b: int,
    x: int,
)
    requires
        files.len() <= usize::MAX,
        takes_own_idents(manual, ch),
        0 <= ch < styles.len(),
        0 <= b < files.len(),
        0 <= x < files.len(),
        is_ident_of(files[b], nets[styles[ch].net as int].name@),
    ensures
        ({
            let pool = channel_pool(files, manual, styles, nets, ch);
            let name = nets[styles[ch].net as int].name@;
            &&& pool is Some
            &&& forall|i: int, j: int|
                0 <= i < j < pool->0.len() ==> #[trigger] pool->0[i] < #[trigger] pool->0[j]
            &&& is_ident_of(files[x], name) ==> pool->0.contains(x as usize)
            &&& files[x].folder is Some && !is_ident_of(files[x], name) ==> !pool->0.contains(
                x as usize,
            )
        }),
{
    let n = files.len() as int;
    let key = network_folder(styles, nets, ch);
    lemma_pool_order(files, n, key);
    lemma_folder_idents(files, n, key);
    lemma_ident_files(files, n);
    let own = folder_idents(files, n, key);
    assert(own.contains(b as usize));
    if own.contains(x as usize) {
        let k = choose|k: int| 0 <= k < own.len() && own[k] == x as usize;
    }
}

/// Where no ident is from the folder of a channel's network, the channel has all that there are.
pub proof fn a_channel_without_idents_borrows_them(
    files: Seq<FileInfo>,
    manual: Seq<Manual>,
    styles: Seq<ChanStyle>,
    nets: Seq<Network>,
    ch: int,
    x: int,
)
    requires
        files.len() <= usize::MAX,
        takes_own_idents(manual, ch),
        0 <= ch < styles.len(),
        forall|b: int|
            0 <= b < files.len() && (#[trigger] files[b]).bumper ==> folder_key(files[b])
                != lowercase(cleaned(nets[styles[ch].net as int].name@)),
        0 <= x < files.len(),
        files[x].bumper,
    ensures
        channel_pool(files, manual, styles, nets, ch) matches Some(p) && p.contains(x as usize),
{
    let n = files.len() as int;
    let key = network_folder(styles, nets, ch);
    lemma_pool_order(files, n, key);
    lemma_folder_idents(files, n, key);
    let own = folder_idents(files, n, key);
    if own.len() > 0 {
        assert(files[own[0] as int].bumper);
    }
    assert(ident_files(files, n).contains(x as usize));
}

/// The idents of a channel for which the lineup names a folder: an ident from a folder of just that
/// name is one of them, and so, where there is none, is one from a folder of the same name but for
/// white space around it and the case of its letters; those from other folders are not.
pub proof fn a_named_folder_gives_all_its_idents(
    files: Seq<FileInfo>,
    manual: Seq<Manual>,
    styles: Seq<ChanStyle>,
    nets: Seq<Network>,
    ch: int,
    b: int,
    x: int,
)
    requires
        files.len() <= usize::MAX,
        entry_for(manual, ch) matches Some(m) && names_folder(m.idents@),
        0 <= b < files.len(),
        files[b].bumper && files[b].folder is Some,
        0 <= x < files.len(),
        files[x].folder is Some,
    ensures
        ({
            let wish = entry_for(manual, ch)->0.idents@;
            let (bs, xs) = (files[b].folder->0@, files[x].folder->0@);
            let pool = channel_pool(files, manual, styles, nets, ch);
            &&& pool is Some
            &&& files[x].bumper && xs == wish ==> pool->0.contains(x as usize)
            &&& bs == wish && pool->0.contains(x as usize) ==> files[x].bumper && xs == wish
            &&& lowercase(trimmed(bs)) == lowercase(trimmed(wish)) && pool->0.contains(x as usize)
                ==> lowercase(trimmed(xs)) == lowercase(trimmed(wish))
            &&& files[x].bumper && lowercase(trimmed(xs)) == lowercase(trimmed(wish)) && (forall|
                i: int,
            |
                0 <= i < files.len() && (#[trigger] files[i]).bumper ==> text_of(files[i].folder)
                    != Some(wish)) ==> pool->0.contains(x as usize)
        }),
{
    let wish = entry_for(manual, ch)->0.idents@;
    let n = files.len() as int;
    let how = best_fit(files, n, wish);
    lemma_ident_files(files, n);
    lemma_fitting(files, n, wish);
    lemma_fits(files, n, wish, how);
    lemma_all_that_fit(files, n, wish, how);
    lemma_best_is_one(files, n, wish);
    let pool = named_pool(files, wish);
    if pool.contains(x as usize) {
        let k = choose|k: int| 0 <= k < pool.len() && pool[k] == x as usize;
        assert(fitting(files, n, wish, how)[k] as int == x);
    }
}

proof fn lemma_all_that_fit(files: Seq<FileInfo>, n: int, wish: Seq<char>, how: int)
    requires
        0 <= n <= files.len(),
        files.len() <= usize::MAX,
    ensures
        forall|b: int|
            0 <= b < n && (#[trigger] files[b]).bumper && fit(files[b], wish) == how ==> fitting(
                files,
                n,
                wish,
                how,
            ).contains(b as usize),
    decreases n,
{
    if n > 0 {
        lemma_all_that_fit(files, n - 1, wish, how);
        let (all, rest) = (fitting(files, n, wish, how), fitting(files, n - 1, wish, how));
        assert forall|b: int|
            0 <= b < n && (#[trigger] files[b]).bumper && fit(files[b], wish) == how implies
            all.contains(b as usize) by {
            if b < n - 1 {
                let k = choose|k: int| 0 <= k < rest.len() && rest[k] == b as usize;
                assert(all[k] == b as usize);
            } else {
                assert(all[rest.len() as int] == b as usize);
            }
        }
    }
}

proof fn lemma_best_is_one(files: Seq<FileInfo>, n: int, wish: Seq<char>)
    requires
        0 <= n <= files.len(),
    ensures
        best_fit(files, n, wish) == 0 || exists|b: int|
            0 <= b < n && (#[trigger] files[b]).bumper && fit(files[b], wish) == best_fit(
                files,
                n,
                wish,
            ),
    decreases n,
{
    if n > 0 {
        lemma_best_is_one(files, n - 1, wish);
        if files[n - 1].bumper && fit(files[n - 1], wish) > best_fit(files, n - 1, wish) {
            assert(files[n - 1].bumper);
        }
    }
}

/// A channel whose idents the lineup switches off, and every channel of a library without idents,
/// has programs alone: a lineup channel its own, one behind the other.
pub proof fn switched_off_idents_do_not_play(
    files: Seq<FileInfo>,
    n: nat,
    styles: Seq<ChanStyle>,
    nets: Seq<Network>,
    manual: Seq<Manual>,
    k: int,
)
    requires
        n <= usize::MAX,
        files.len() <= usize::MAX,
        lineup_fits(manual, n as int, files.len() as int),
        0 <= k < manual.len(),
        lowercase(trimmed(manual[k].idents@)) == "off"@ || forall|b: int|
            0 <= b < files.len() ==> !(#[trigger] files[b]).bumper,
    ensures
        playlists(files, n, styles, nets, manual)[manual[k].channel - 1] == own_programs(
            files,
            manual[k],
        ),
{
    let c = manual[k].channel - 1;
    lemma_entry_of(manual, k);
    channels_play_what_they_are_dealt(files, n, styles, nets, manual, c);
    let all = ident_files(files, files.len() as int);
    lemma_ident_files(files, files.len() as int);
    if all.len() > 0 {
        assert(files[all[0] as int].bumper);
    }
}

/// The programs of a lineup channel that does not shuffle stand in alphabetical order of their
/// paths, whatever the case of the letters; none follows itself.
pub proof fn a_lineup_channel_plays_in_order(files: Seq<FileInfo>, m: Manual)
    requires
        !m.shuffle,
        below(m.files@, files.len() as int),
    ensures
        ({
            let list = own_programs(files, m);
            &&& forall|i: int, j: int|
                0 <= i < j < list.len() ==> !text_lt(
                    lowercase(files[#[trigger] list[j] as int].path@),
                    lowercase(files[#[trigger] list[i] as int].path@),
                )
            &&& forall|i: int| 0 < i < list.len() ==> #[trigger] list[i] != list[i - 1]
        }),
{
    let sorted = sort_by(m.files@, low_paths(files));
    sorting_is_stable(m.files@, low_paths(files));
    lemma_same_elements(sorted, m.files@);
    lineup_channels_play_their_own(files, m);
    lemma_dedup_order(sorted, low_paths(files));
    lemma_dedup_keeps(sorted);
    let list = own_programs(files, m);
    assert forall|i: int, j: int| 0 <= i < j < list.len() implies !text_lt(
        lowercase(files[#[trigger] list[j] as int].path@),
        lowercase(files[#[trigger] list[i] as int].path@),
    ) by {
        assert(list.contains(list[i]) && list.contains(list[j]));
        assert(m.files@.contains(list[i]) && m.files@.contains(list[j]));
        assert(!text_lt(low_paths(files)[list[j] as int], low_paths(files)[list[i] as int]));
    }
}

proof fn lemma_dedup_order(s: Seq<usize>, keys: Seq<Seq<char>>)
    requires
        is_sorted_by(s, keys),
    ensures
        is_sorted_by(dedup(s), keys),
        forall|i: int| 0 < i < dedup(s).len() ==> #[trigger] dedup(s)[i] != dedup(s)[i - 1],
        s.len() > 0 ==> dedup(s).len() > 0 && dedup(s).last() == s.last(),
    decreases s.len(),
{
    if s.len() > 1 {
        let t = s.drop_last();
        assert(is_sorted_by(t, keys)) by {
            assert forall|i: int, j: int| 0 <= i < j < t.len() implies !text_lt(
                #[trigger] keys[t[j] as int],
                #[trigger] keys[t[i] as int],
            ) by {
                assert(t[i] == s[i] && t[j] == s[j]);
                assert(!text_lt(keys[s[j] as int], keys[s[i] as int]));
            }
        }
        lemma_dedup_order(t, keys);
        let (d, e) = (dedup(s), dedup(t));
        assert(t.last() == s[s.len() - 2]);
        if s.last() != t.last() {
            lemma_dedup_keeps(t);
            assert forall|i: int, j: int| 0 <= i < j < d.len() implies !text_lt(
                #[trigger] keys[d[j] as int],
                #[trigger] keys[d[i] as int],
            ) by {
                if j < e.len() {
                    assert(d[i] == e[i] && d[j] == e[j]);
                    assert(!text_lt(keys[e[j] as int], keys[e[i] as int]));
                } else {
                    assert(d[i] == e[i]);
                    assert(e.contains(e[i]));
                    assert(t.contains(e[i]));
                    let k = choose|k: int| 0 <= k < t.len() && t[k] == e[i];
                    assert(s[k] == e[i]);
                    assert(!text_lt(keys[s[s.len() - 1] as int], keys[s[k] as int]));
                }
            }
            assert forall|i: int| 0 < i < d.len() implies #[trigger] d[i] != d[i - 1] by {
                if i < e.len() {
                    assert(d[i] == e[i] && d[i - 1] == e[i - 1]);
                } else {
                    assert(d[i - 1] == e[e.len() - 1]);
                }
            }
        }
    }
}

/// A channel is left to the deal exactly where the lineup has no entry for it, and the channels of
/// the deal are in ascending order. The entry for a channel is the one with its number.
pub proof fn channels_without_an_entry_are_dealt_to(manual: Seq<Manual>, n: int, k: int, ch: usize)
    requires
        0 <= n <= usize::MAX,
        1 <= ch <= n,
        0 <= k < manual.len(),
        forall|i: int, j: int|
            0 <= i < j < manual.len() ==> (#[trigger] manual[i]).channel != (
            #[trigger] manual[j]).channel,
    ensures
        auto_channels(manual, n).contains(ch) <==> forall|i: int|
            0 <= i < manual.len() ==> (#[trigger] manual[i]).channel != ch,
        forall|i: int, j: int|
            0 <= i < j < auto_channels(manual, n).len() ==> #[trigger] auto_channels(manual, n)[i]
                < #[trigger] auto_channels(manual, n)[j],
        entry_for(manual, manual[k].channel as int) == Some(manual[k]),
{
    lemma_auto_channels(manual, n);
    lemma_entry_of(manual, k);
    lemma_entry_for(manual, ch as int);
    if entry_for(manual, ch as int) is None {
        lemma_auto_has(manual, n, ch);
    }
    let auto = auto_channels(manual, n);
    if auto.contains(ch) {
        let i = choose|i: int| 0 <= i < auto.len() && auto[i] == ch;
        assert(entry_for(manual, auto[i] as int) is None);
    } else {
        let m = entry_for(manual, ch as int)->0;
        let i = choose|i: int| 0 <= i < manual.len() && #[trigger] manual[i] == m && m.channel == ch;
        assert(manual[i].channel == ch);
    }
}

proof fn lemma_auto_has(manual: Seq<Manual>, n: int, ch: usize)
    requires
        0 <= n <= usize::MAX,
        1 <= ch <= n,
        entry_for(manual, ch as int) is None,
    ensures
        auto_channels(manual, n).contains(ch),
    decreases n,
{
    let auto = auto_channels(manual, n);
    if ch < n {
        lemma_auto_has(manual, n - 1, ch);
        let rest = auto_channels(manual, n - 1);
        let i = choose|i: int| 0 <= i < rest.len() && rest[i] == ch;
        assert(auto[i] == ch);
    } else {
        assert(auto[auto.len() - 1] == ch);
    }
}

} // verus!
