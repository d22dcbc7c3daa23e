//! From what was found on disk to a station: lineup channels get their files, idents join the
//! library, networks and styles are settled, and the schedules are built.

use vstd::prelude::*;
use crate::args::{arg_num, number_of};
use crate::deal::{build_schedules, lineup_fits, playlists, styles_fit, Manual};
use crate::library::{clean_name, cleaned, FileInfo};
use crate::networks::{
    make_styles, net_views, style_of, styles_fit_the_networks, ChanStyle, Network, NetworkView,
};
use crate::order::{
    key_texts, lemma_permuted_numbers, numbers, sort_by, sort_indices, sorting_is_stable,
    text_lt, text_order_is_total, text_order_is_transitive,
};
use crate::schedule::Schedule;
use crate::settings::{Lineup, LineupChannel};
use crate::station::Station;
use crate::text::{
    chars_of, decimal, eq_ignore_ascii_case, lowercase, push_decimal, same_chars,
    same_ignoring_case, same_text, texts, to_lowercase, to_uppercase, uppercase,
};

verus! {

/// The number of channels to deal to: enough for the setting / flag and for every lineup entry.
pub fn channel_count(args: &Vec<String>, channels: usize, lineup: &Lineup) -> (r: usize)
    ensures
        ({
            let asked = number_of(texts(args@), "--channels"@, channels as u32);
            &&& r >= 1
            &&& r >= asked
            &&& forall|i: int|
                0 <= i < lineup.channels@.len() ==> (#[trigger] lineup.channels@[i]).number <= r
            &&& r == 1 || r == asked || exists|i: int|
                0 <= i < lineup.channels@.len() && (#[trigger] lineup.channels@[i]).number == r
        }),
{
    let asked: usize = arg_num(args, "--channels", channels as u32) as usize;
    let listed: usize = lineup.highest();
    let n: usize = if asked < listed { listed } else { asked };
    if n < 1 {
        1
    } else {
        n
    }
}

/// A lineup entry with folders of its own.
pub fn has_folders(c: &LineupChannel) -> (r: bool)
    ensures
        r == (c.number > 0 && c.sources@.len() > 0),
{
    c.number > 0 && c.sources.len() > 0
}

// ---------------------------------------------------------------- lineup channels

/// What the folders of a lineup channel hold.
pub struct Found {
    pub channel: usize,
    pub files: Vec<FileInfo>,
    pub shuffle: bool,
    pub idents: String,
}

#[verifier::ext_equal]
pub struct ManualView {
    pub channel: usize,
    pub files: Seq<usize>,
    pub shuffle: bool,
    pub idents: Seq<char>,
}

pub open spec fn manual_view(m: Manual) -> ManualView {
    ManualView { channel: m.channel, files: m.files@, shuffle: m.shuffle, idents: m.idents@ }
}

pub open spec fn manual_views(v: Seq<Manual>) -> Seq<ManualView> {
    v.map_values(|m: Manual| manual_view(m))
}

/// Where the library has the file with this lower-case path: the last one that does.
pub open spec fn file_at(files: Seq<FileInfo>, key: Seq<char>) -> Option<int>
    decreases files.len(),
{
    if files.len() == 0 {
        None
    } else if lowercase(files.last().path@) == key {
        Some(files.len() - 1)
    } else {
        file_at(files.drop_last(), key)
    }
}

/// The library with the first `k` of `found` in it, and where they are. A file that it has
/// already, whatever the case of its path, is not added again.
pub open spec fn pinned(files: Seq<FileInfo>, found: Seq<FileInfo>, k: int) -> (
    Seq<FileInfo>,
    Seq<usize>,
)
    decreases k,
{
    if k <= 0 {
        (files, Seq::empty())
    } else {
        let (all, at) = pinned(files, found, k - 1);
        match file_at(all, lowercase(found[k - 1].path@)) {
            Some(i) => (all, at.push(i as usize)),
            None => (all.push(found[k - 1]), at.push(all.len() as usize)),
        }
    }
}

/// Where the lineup has its entry for channel `ch`.
pub open spec fn entry_at(manual: Seq<ManualView>, ch: usize) -> Option<int>
    decreases manual.len(),
{
    if manual.len() == 0 {
        None
    } else if manual.last().channel == ch {
        Some(manual.len() - 1)
    } else {
        entry_at(manual.drop_last(), ch)
    }
}

/// The lineup with one more entry; one for the same channel is replaced.
pub open spec fn with_entry(manual: Seq<ManualView>, m: ManualView) -> Seq<ManualView> {
    match entry_at(manual, m.channel) {
        Some(i) => manual.update(i, m),
        None => manual.push(m),
    }
}

/// The library and the lineup once the first `k` channels have their files.
pub open spec fn pinned_all(files: Seq<FileInfo>, found: Seq<Found>, k: int) -> (
    Seq<FileInfo>,
    Seq<ManualView>,
)
    decreases k,
{
    if k <= 0 {
        (files, Seq::empty())
    } else {
        let (all, manual) = pinned_all(files, found, k - 1);
        let f = found[k - 1];
        let (more, at) = pinned(all, f.files@, f.files@.len() as int);
        (
            more,
            with_entry(
                manual,
                ManualView { channel: f.channel, files: at, shuffle: f.shuffle, idents: f.idents@ },
            ),
        )
    }
}

proof fn lemma_file_at(files: Seq<FileInfo>, key: Seq<char>)
    ensures
        match file_at(files, key) {
            Some(i) => 0 <= i < files.len() && lowercase(files[i].path@) == key,
            None => forall|i: int|
                0 <= i < files.len() ==> lowercase((#[trigger] files[i]).path@) != key,
        },
    decreases files.len(),
{
    if files.len() > 0 {
        lemma_file_at(files.drop_last(), key);
        if lowercase(files.last().path@) != key && file_at(files.drop_last(), key) is None {
            assert forall|i: int| 0 <= i < files.len() implies lowercase(
                (#[trigger] files[i]).path@,
            ) != key by {
                if i < files.len() - 1 {
                    assert(files.drop_last()[i] == files[i]);
                }
            }
        }
    }
}

/// Every file found in a lineup channel's folders is where its list says, and the library keeps
/// what it had, in place.
pub proof fn pinned_files_are_found(files: Seq<FileInfo>, found: Seq<FileInfo>, k: int)
    requires
        0 <= k <= found.len(),
        files.len() + found.len() <= usize::MAX,
    ensures
        ({
            let (all, at) = pinned(files, found, k);
            &&& at.len() == k
            &&& files.len() <= all.len() <= files.len() + k
            &&& all.take(files.len() as int) == files
            &&& forall|i: int|
                0 <= i < k ==> #[trigger] at[i] < all.len() && lowercase(
                    all[at[i] as int].path@,
                ) == lowercase(found[i].path@)
        }),
    decreases k,
{
    if k > 0 {
        pinned_files_are_found(files, found, k - 1);
        let (all, at) = pinned(files, found, k - 1);
        let key = lowercase(found[k - 1].path@);
        lemma_file_at(all, key);
        let (all2, at2) = pinned(files, found, k);
        assert(all2.take(files.len() as int) =~= all.take(files.len() as int));
        assert forall|i: int| 0 <= i < k implies #[trigger] at2[i] < all2.len() && lowercase(
            all2[at2[i] as int].path@,
        ) == lowercase(found[i].path@) by {
            if i < k - 1 {
                assert(at2[i] == at[i]);
                assert(all2[at[i] as int] == all[at[i] as int]);
            }
        }
    } else {
        assert(files.take(files.len() as int) =~= files);
    }
}

fn low_chars(path: &str) -> (r: Vec<char>)
    ensures
        r@ == lowercase(path@),
{
    let low = to_lowercase(path);
    chars_of(low.as_str())
}

/// The lower-case paths beside the files.
pub open spec fn keyed(keys: Seq<Vec<char>>, files: Seq<FileInfo>) -> bool {
    &&& keys.len() == files.len()
    &&& forall|i: int| 0 <= i < keys.len() ==> #[trigger] keys[i]@ == lowercase(files[i].path@)
}

fn find_file(keys: &Vec<Vec<char>>, key: &Vec<char>, files: &Vec<FileInfo>) -> (r: Option<usize>)
    requires
        keyed(keys@, files@),
    ensures
        match r {
            Some(i) => i < files@.len() && file_at(files@, key@) == Some(i as int),
            None => file_at(files@, key@) is None,
        },
{
    let mut i: usize = keys.len();
    assert(files@.take(i as int) =~= files@);
    while i > 0
        invariant
            i <= files@.len(),
            keyed(keys@, files@),
            file_at(files@, key@) == file_at(files@.take(i as int), key@),
        decreases i,
    {
        assert(files@.take(i as int).drop_last() =~= files@.take(i - 1));
        if same_chars(&keys[i - 1], key) {
            return Some(i - 1);
        }
        i -= 1;
    }
    None
}

/// Adds what a lineup channel's folders hold to the library; returns where it is.
fn pin_files(files: &mut Vec<FileInfo>, keys: &mut Vec<Vec<char>>, found: Vec<FileInfo>) -> (r:
    Vec<usize>)
    requires
        keyed(old(keys)@, old(files)@),
    ensures
        keyed(final(keys)@, final(files)@),
        (final(files)@, r@) == pinned(old(files)@, found@, found@.len() as int),
{
    let ghost start = files@;
    let ghost all = found@;
    let mut at: Vec<usize> = Vec::new();
    assert(at@ =~= Seq::empty());
    for f in it: found
        invariant
            it.seq() == all,
            keyed(keys@, files@),
            (files@, at@) == pinned(start, all, it.index()),
    {
        assert(f == all[it.index()]);
        let key = low_chars(f.path.as_str());
        match find_file(keys, &key, files) {
            Some(i) => at.push(i),
            None => {
                at.push(files.len());
                files.push(f);
                keys.push(key);
            },
        }
    }
    at
}

/// Replaces the entry for the same channel, or adds one.
fn put_entry(manual: &mut Vec<Manual>, m: Manual)
    ensures
        manual_views(final(manual)@) == with_entry(manual_views(old(manual)@), manual_view(m)),
{
    let ghost start = manual_views(manual@);
    let ghost new = manual_view(m);
    let ch = m.channel;
    let mut i: usize = manual.len();
    assert(start.take(start.len() as int) =~= start);
    while i > 0
        invariant
            i <= manual@.len(),
            start == manual_views(manual@),
            start == manual_views(old(manual)@),
            new == manual_view(m),
            ch == m.channel,
            entry_at(start, ch) == entry_at(start.take(i as int), ch),
        decreases i,
    {
        proof {
            let t = start.take(i as int);
            assert(t.last() == manual_view(manual@[i - 1]));
            assert(t.drop_last() =~= start.take(i - 1));
        }
        if manual[i - 1].channel == ch {
            manual.set(i - 1, m);
            assert(manual_views(manual@) =~= start.update(i - 1, new));
            return;
        }
        i -= 1;
    }
    manual.push(m);
    assert(manual_views(manual@) =~= start.push(new));
}

/// Lineup channels with their own folders get their files; those are left out of the automatic
/// deal. Returns the library with the files of those folders in it, and the channels.
pub fn pin_channels(files: Vec<FileInfo>, found: Vec<Found>) -> (r: (Vec<FileInfo>, Vec<Manual>))
    ensures
        (r.0@, manual_views(r.1@)) == pinned_all(files@, found@, found@.len() as int),
        forall|n: int|
            channels_within(found@, n) ==> #[trigger] lineup_fits(r.1@, n, r.0@.len() as int),
{
    let ghost start = files@;
    let ghost all = found@;
    let mut files = files;
    let mut keys: Vec<Vec<char>> = Vec::new();
    let mut i: usize = 0;
    while i < files.len()
        invariant
            i <= files@.len(),
            keys@.len() == i,
            forall|j: int| 0 <= j < i ==> #[trigger] keys@[j]@ == lowercase(files@[j].path@),
        decreases files@.len() - i,
    {
        keys.push(low_chars(files[i].path.as_str()));
        i += 1;
    }
    let mut manual: Vec<Manual> = Vec::new();
    assert(manual_views(manual@) =~= Seq::empty());
    for f in it: found
        invariant
            it.seq() == all,
            keyed(keys@, files@),
            (files@, manual_views(manual@)) == pinned_all(start, all, it.index()),
    {
        assert(f == all[it.index()]);
        let at = pin_files(&mut files, &mut keys, f.files);
        let m = Manual { channel: f.channel, files: at, shuffle: f.shuffle, idents: f.idents };
        put_entry(&mut manual, m);
    }
    let count: usize = files.len();
    proof {
        assert(count == files@.len());
        let mv = manual_views(manual@);
        lemma_pinned_all(start, all, all.len() as int);
        assert forall|n: int| channels_within(all, n) implies #[trigger] lineup_fits(
            manual@,
            n,
            files@.len() as int,
        ) by {
            lemma_entries_within(start, all, all.len() as int, n);
            assert forall|k: int| 0 <= k < manual@.len() implies 1 <= (
            #[trigger] manual@[k]).channel <= n by {
                assert(mv[k].channel == manual@[k].channel);
            }
            assert forall|k: int, l: int| 0 <= k < l < manual@.len() implies (
            #[trigger] manual@[k]).channel != (#[trigger] manual@[l]).channel by {
                assert(mv[k].channel != mv[l].channel);
            }
            assert forall|k: int, i: int|
                0 <= k < manual@.len() && 0 <= i < manual@[k].files@.len() implies
                #[trigger] manual@[k].files@[i] < files@.len() by {
                assert(mv[k].files[i] == manual@[k].files@[i]);
            }
        }
    }
    (files, manual)
}

/// All these channels are from 1 to `n`.
pub open spec fn channels_within(found: Seq<Found>, n: int) -> bool {
    forall|i: int| 0 <= i < found.len() ==> 1 <= (#[trigger] found[i]).channel <= n
}

/// Every channel has one entry, and every file of it is in the library.
pub open spec fn entries_fit(manual: Seq<ManualView>, count: int) -> bool {
    &&& forall|k: int, l: int|
        0 <= k < l < manual.len() ==> (#[trigger] manual[k]).channel != (
        #[trigger] manual[l]).channel
    &&& forall|k: int, i: int|
        0 <= k < manual.len() && 0 <= i < manual[k].files.len() ==> #[trigger] manual[k].files[i]
            < count
}

proof fn lemma_entry_at(manual: Seq<ManualView>, ch: usize)
    ensures
        match entry_at(manual, ch) {
            Some(i) => 0 <= i < manual.len() && manual[i].channel == ch,
            None => forall|i: int| 0 <= i < manual.len() ==> (#[trigger] manual[i]).channel != ch,
        },
    decreases manual.len(),
{
    if manual.len() > 0 {
        let t = manual.drop_last();
        lemma_entry_at(t, ch);
        if manual.last().channel != ch && entry_at(t, ch) is None {
            assert forall|i: int| 0 <= i < manual.len() implies (#[trigger] manual[i]).channel
                != ch by {
                if i < t.len() {
                    assert(t[i] == manual[i]);
                }
            }
        }
    }
}

proof fn lemma_pinned_monotone(files: Seq<FileInfo>, found: Seq<FileInfo>, k: int, l: int)
    requires
        0 <= k <= l,
    ensures
        files.len() <= pinned(files, found, k).0.len() <= pinned(files, found, l).0.len(),
    decreases l,
{
    if l > 0 {
        if k < l {
            lemma_pinned_monotone(files, found, k, l - 1);
        } else {
            lemma_pinned_monotone(files, found, k - 1, l - 1);
        }
    }
}

proof fn lemma_pinned_below(files: Seq<FileInfo>, found: Seq<FileInfo>, k: int)
    requires
        0 <= k,
        pinned(files, found, k).0.len() <= usize::MAX,
    ensures
        forall|i: int|
            0 <= i < pinned(files, found, k).1.len() ==> #[trigger] pinned(files, found, k).1[i]
                < pinned(files, found, k).0.len(),
    decreases k,
{
    if k > 0 {
        lemma_pinned_monotone(files, found, k - 1, k);
        lemma_pinned_below(files, found, k - 1);
        let (all, at) = pinned(files, found, k - 1);
        lemma_file_at(all, lowercase(found[k - 1].path@));
        let (all2, at2) = pinned(files, found, k);
        assert forall|i: int| 0 <= i < at2.len() implies #[trigger] at2[i] < all2.len() by {
            if i < at.len() {
                assert(at2[i] == at[i]);
            }
        }
    }
}

proof fn lemma_pinned_grows(files: Seq<FileInfo>, found: Seq<FileInfo>)
    ensures
        files.len() <= pinned(files, found, found.len() as int).0.len(),
{
    lemma_pinned_monotone(files, found, 0, found.len() as int);
}

proof fn lemma_pinned_all_monotone(files: Seq<FileInfo>, found: Seq<Found>, k: int, l: int)
    requires
        0 <= k <= l,
    ensures
        pinned_all(files, found, k).0.len() <= pinned_all(files, found, l).0.len(),
    decreases l - k,
{
    if k < l {
        lemma_pinned_all_monotone(files, found, k, l - 1);
        lemma_pinned_grows(pinned_all(files, found, l - 1).0, found[l - 1].files@);
    }
}

proof fn lemma_pinned_all(files: Seq<FileInfo>, found: Seq<Found>, k: int)
    requires
        0 <= k <= found.len(),
        pinned_all(files, found, k).0.len() <= usize::MAX,
    ensures
        entries_fit(
            pinned_all(files, found, k).1,
            pinned_all(files, found, k).0.len() as int,
        ),
    decreases k,
{
    if k > 0 {
        lemma_pinned_all_monotone(files, found, k - 1, k);
        lemma_pinned_all(files, found, k - 1);
        let (all, manual) = pinned_all(files, found, k - 1);
        let f = found[k - 1];
        let (more, at) = pinned(all, f.files@, f.files@.len() as int);
        lemma_pinned_below(all, f.files@, f.files@.len() as int);
        lemma_entry_at(manual, f.channel);
        let m = ManualView {
            channel: f.channel,
            files: at,
            shuffle: f.shuffle,
            idents: f.idents@,
        };
        let out = with_entry(manual, m);
        assert forall|a: int, i: int|
            0 <= a < out.len() && 0 <= i < out[a].files.len() implies #[trigger] out[a].files[i]
            < more.len() by {
            if out[a] != m {
                assert(out[a] == manual[a]);
                assert(manual[a].files[i] < all.len());
            }
        }
    }
}

proof fn lemma_entries_within(files: Seq<FileInfo>, found: Seq<Found>, k: int, n: int)
    requires
        0 <= k <= found.len(),
        channels_within(found, n),
    ensures
        forall|i: int|
            0 <= i < pinned_all(files, found, k).1.len() ==> 1 <= (#[trigger] pinned_all(
                files,
                found,
                k,
            ).1[i]).channel <= n,
    decreases k,
{
    if k > 0 {
        lemma_entries_within(files, found, k - 1, n);
        let manual = pinned_all(files, found, k - 1).1;
        lemma_entry_at(manual, found[k - 1].channel);
        let out = pinned_all(files, found, k).1;
        assert forall|i: int| 0 <= i < out.len() implies 1 <= (#[trigger] out[i]).channel
            <= n by {
            if i < manual.len() {
                assert(1 <= manual[i].channel <= n);
            }
        }
    }
}

// ---------------------------------------------------------------- idents

/// The file as an ident.
pub open spec fn as_ident(f: FileInfo) -> FileInfo {
    FileInfo { bumper: true, ..f }
}

/// Station idents, one folder per network, are appended to the library and flagged.
pub fn add_idents(files: &mut Vec<FileInfo>, found: Vec<FileInfo>)
    ensures
        final(files)@ == old(files)@ + found@.map_values(|f: FileInfo| as_ident(f)),
{
    let ghost start = files@;
    let ghost all = found@;
    for f in it: found
        invariant
            it.seq() == all,
            files@ == start + all.take(it.index()).map_values(|f: FileInfo| as_ident(f)),
    {
        let ghost before = files@;
        assert(f == all[it.index()]);
        let ident = FileInfo { bumper: true, ..f };
        files.push(ident);
        proof {
            let k = it.index();
            assert(all.take(k + 1) =~= all.take(k).push(all[k]));
            assert(files@ =~= start + all.take(k + 1).map_values(|f: FileInfo| as_ident(f)));
        }
    }
    assert(all.take(all.len() as int) =~= all);
}

/// The cleaned names of the folders that the idents came from, in the order of the library.
pub open spec fn ident_folders(files: Seq<FileInfo>) -> Seq<Seq<char>>
    decreases files.len(),
{
    if files.len() == 0 {
        Seq::empty()
    } else {
        let rest = ident_folders(files.drop_last());
        let f = files.last();
        match f.folder {
            Some(s) => if f.bumper {
                rest.push(cleaned(s@))
            } else {
                rest
            },
            None => rest,
        }
    }
}

/// A list without the texts that repeat the one before them.
pub open spec fn without_repeats(s: Seq<Seq<char>>) -> Seq<Seq<char>>
    decreases s.len(),
{
    if s.len() <= 1 {
        s
    } else if s.last() == s[s.len() - 2] {
        without_repeats(s.drop_last())
    } else {
        without_repeats(s.drop_last()).push(s.last())
    }
}

/// A list in order.
pub open spec fn in_order(s: Seq<Seq<char>>) -> Seq<Seq<char>> {
    sort_by(numbers(s.len()), s).map_values(|k: usize| s[k as int])
}

/// The names of the ident folders, each once, in order.
pub fn ident_names(files: &Vec<FileInfo>) -> (r: Vec<String>)
    ensures
        texts(r@) == without_repeats(in_order(ident_folders(files@))),
{
    let mut names: Vec<String> = Vec::new();
    let mut keys: Vec<Vec<char>> = Vec::new();
    let mut order: Vec<usize> = Vec::new();
    let mut i: usize = 0;
    assert(texts(names@) =~= ident_folders(files@.take(0)));
    while i < files.len()
        invariant
            i <= files@.len(),
            texts(names@) == ident_folders(files@.take(i as int)),
            keys@.len() == names@.len() == order@.len(),
            forall|j: int| 0 <= j < keys@.len() ==> #[trigger] keys@[j]@ == names@[j]@,
            forall|j: int| 0 <= j < order@.len() ==> #[trigger] order@[j] == j,
        decreases files@.len() - i,
    {
        assert(files@.take(i + 1).drop_last() =~= files@.take(i as int));
        assert(files@.take(i + 1).last() == files@[i as int]);
        if files[i].bumper {
            if let Some(s) = &files[i].folder {
                let ghost before = names@;
                let name = clean_name(s.as_str());
                order.push(names.len());
                keys.push(chars_of(name.as_str()));
                names.push(name);
                assert(texts(names@) =~= texts(before).push(name@));
            }
        }
        i += 1;
    }
    let ghost found = texts(names@);
    let sorted = sort_indices(&order, &keys);
    proof {
        assert(files@.take(files@.len() as int) =~= files@);
        assert(order@ =~= numbers(found.len()));
        assert(key_texts(keys@) =~= found);
    }
    let ghost all = in_order(found);
    let mut out: Vec<String> = Vec::new();
    let mut k: usize = 0;
    assert(texts(out@) =~= without_repeats(all.take(0)));
    while k < sorted.len()
        invariant
            k <= sorted@.len(),
            found == texts(names@),
            all == sorted@.map_values(|x: usize| found[x as int]),
            forall|j: int| 0 <= j < sorted@.len() ==> #[trigger] sorted@[j] < names@.len(),
            texts(out@) == without_repeats(all.take(k as int)),
        decreases sorted@.len() - k,
    {
        let ghost next = all.take(k + 1);
        proof {
            assert(next.drop_last() =~= all.take(k as int));
            assert(next.last() == names@[sorted@[k as int] as int]@);
            if k > 0 {
                assert(next[k - 1] == names@[sorted@[k - 1] as int]@);
            }
        }
        let repeats = k > 0 && same_text(
            names[sorted[k]].as_str(),
            names[sorted[k - 1]].as_str(),
        );
        if !repeats {
            let ghost before = out@;
            let name = names[sorted[k]].clone();
            out.push(name);
            assert(texts(out@) =~= texts(before).push(name@));
            if k == 0 {
                assert(texts(out@) =~= next);
            }
        }
        k += 1;
    }
    assert(all.take(all.len() as int) =~= all);
    out
}

// ---------------------------------------------------------------- lineup overrides

/// The first network with this name, whatever the case of its ASCII letters.
pub open spec fn named_network(nets: Seq<NetworkView>, name: Seq<char>) -> Option<int>
    decreases nets.len(),
{
    if nets.len() == 0 {
        None
    } else {
        match named_network(nets.drop_last(), name) {
            Some(i) => Some(i),
            None => if same_ignoring_case(nets.last().name, name) {
                Some(nets.len() - 1)
            } else {
                None
            },
        }
    }
}

/// The networks and styles once a lineup entry has had its say: name, logo and dressing of its
/// channel.
pub open spec fn overridden(
    nets: Seq<NetworkView>,
    styles: Seq<ChanStyle>,
    c: LineupChannel,
) -> (Seq<NetworkView>, Seq<ChanStyle>) {
    let at = if c.logo@.len() == 0 {
        None
    } else {
        named_network(nets, c.logo@)
    };
    let own_name = c.name@.len() > 0 && !(at is Some && same_ignoring_case(
        nets[at->0].name,
        c.name@,
    ));
    let style = styles[c.number as int];
    let net = if own_name {
        nets.len() as usize
    } else if at is Some {
        at->0 as usize
    } else {
        style.net
    };
    let nets2 = if own_name {
        nets.push(
            NetworkView {
                name: c.name@,
                logo: if at is Some {
                    nets[at->0].logo
                } else {
                    None
                },
            },
        )
    } else {
        nets
    };
    let bug = if c.bug@ == "off"@ {
        0u8
    } else if c.bug@ == "br"@ {
        1u8
    } else if c.bug@ == "bl"@ {
        2u8
    } else if c.bug@ == "tl"@ {
        3u8
    } else {
        style.bug
    };
    let clock = if c.clock@ == "on"@ {
        true
    } else if c.clock@ == "off"@ {
        false
    } else {
        style.clock
    };
    let ticker = if c.ticker@ == "on"@ {
        true
    } else if c.ticker@ == "off"@ {
        false
    } else {
        style.ticker
    };
    (nets2, styles.update(c.number as int, ChanStyle { net, bug, clock, ticker, ..style }))
}

/// The networks and styles once the first `k` lineup entries for channels 1 to `n` have had their
/// say.
pub open spec fn overridden_all(
    nets: Seq<NetworkView>,
    styles: Seq<ChanStyle>,
    lineup: Seq<LineupChannel>,
    n: int,
    k: int,
) -> (Seq<NetworkView>, Seq<ChanStyle>)
    decreases k,
{
    if k <= 0 {
        (nets, styles)
    } else {
        let (ns, ss) = overridden_all(nets, styles, lineup, n, k - 1);
        if 0 < lineup[k - 1].number <= n {
            overridden(ns, ss, lineup[k - 1])
        } else {
            (ns, ss)
        }
    }
}

fn find_network(nets: &Vec<Network>, name: &str) -> (r: Option<usize>)
    ensures
        match r {
            Some(i) => i < nets@.len() && named_network(net_views(nets@), name@) == Some(i as int),
            None => named_network(net_views(nets@), name@) is None,
        },
{
    let ghost all = net_views(nets@);
    let mut i: usize = 0;
    while i < nets.len()
        invariant
            i <= nets@.len(),
            all == net_views(nets@),
            named_network(all.take(i as int), name@) is None,
        decreases nets@.len() - i,
    {
        proof {
            assert(all.take(i + 1).drop_last() =~= all.take(i as int));
            assert(all.take(i + 1).last() == nets@[i as int]@);
        }
        if eq_ignore_ascii_case(nets[i].name.as_str(), name) {
            proof {
                lemma_first_stays(all, name@, i + 1);
            }
            return Some(i);
        }
        i += 1;
    }
    assert(all.take(all.len() as int) =~= all);
    None
}

/// The first network of a name is the first in any longer list.
proof fn lemma_first_stays(nets: Seq<NetworkView>, name: Seq<char>, k: int)
    requires
        0 <= k <= nets.len(),
        named_network(nets.take(k), name) is Some,
    ensures
        named_network(nets, name) == named_network(nets.take(k), name),
    decreases nets.len(),
{
    if k < nets.len() {
        let t = nets.drop_last();
        assert(t.take(k) =~= nets.take(k));
        lemma_first_stays(t, name, k);
    } else {
        assert(nets.take(k) =~= nets);
    }
}

fn apply_entry(nets: &mut Vec<Network>, styles: &mut Vec<ChanStyle>, c: &LineupChannel)
    requires
        c.number < old(styles)@.len(),
        styles_fit(old(styles)@, old(nets)@.len() as int),
    ensures
        (net_views(final(nets)@), final(styles)@) == overridden(
            net_views(old(nets)@),
            old(styles)@,
            *c,
        ),
        styles_fit(final(styles)@, final(nets)@.len() as int),
        final(styles)@.len() == old(styles)@.len(),
        final(nets)@.len() >= old(nets)@.len(),
{
    let ghost start = net_views(nets@);
    assert(start.len() == nets@.len());
    let at = if c.logo.as_str().is_empty() { None } else { find_network(nets, c.logo.as_str()) };
    let same = match at {
        Some(i) => eq_ignore_ascii_case(nets[i].name.as_str(), c.name.as_str()),
        None => false,
    };
    let mut style = styles[c.number];
    if !c.name.as_str().is_empty() && !same {
        let logo = match at {
            Some(i) => match &nets[i].logo {
                Some(l) => Some(l.copy()),
                None => None,
            },
            None => None,
        };
        style.net = nets.len();
        let net = Network { name: c.name.clone(), logo };
        let ghost view = net@;
        nets.push(net);
        assert(net_views(nets@) =~= start.push(view));
    } else if let Some(i) = at {
        style.net = i;
    }
    if same_text(c.bug.as_str(), "off") {
        style.bug = 0;
    } else if same_text(c.bug.as_str(), "br") {
        style.bug = 1;
    } else if same_text(c.bug.as_str(), "bl") {
        style.bug = 2;
    } else if same_text(c.bug.as_str(), "tl") {
        style.bug = 3;
    }
    if same_text(c.clock.as_str(), "on") {
        style.clock = true;
    } else if same_text(c.clock.as_str(), "off") {
        style.clock = false;
    }
    if same_text(c.ticker.as_str(), "on") {
        style.ticker = true;
    } else if same_text(c.ticker.as_str(), "off") {
        style.ticker = false;
    }
    let ghost old_styles = styles@;
    styles.set(c.number, style);
    assert forall|i: int| 0 <= i < styles@.len() implies (#[trigger] styles@[i]).net
        < nets@.len() by {
        if i != c.number {
            assert(styles@[i] == old_styles[i]);
        }
    }
}

/// Per-channel dressing with the lineup's overrides: name / logo / dressing per channel. The
/// networks that the lineup names are added to the list.
pub fn dress_channels(nets: &mut Vec<Network>, lineup: &Lineup, nchan: usize) -> (r: Vec<ChanStyle>)
    requires
        old(nets)@.len() > 0,
        nchan + 9 <= usize::MAX,
    ensures
        (net_views(final(nets)@), r@) == overridden_all(
            net_views(old(nets)@),
            Seq::new((nchan + 2) as nat, |ch: int| style_of(ch, old(nets)@.len() as int)),
            lineup.channels@,
            nchan as int,
            lineup.channels@.len() as int,
        ),
        styles_fit(r@, final(nets)@.len() as int),
        r@.len() == nchan + 2,
{
    let ghost start = net_views(nets@);
    let count: usize = nets.len();
    let mut styles = make_styles(nchan + 1, count);
    let ghost plain = styles@;
    proof {
        assert forall|c: int| 0 <= c < styles@.len() implies (#[trigger] styles@[c]).net
            < count by {
            styles_fit_the_networks(c, count as int);
        }
    }
    let mut k: usize = 0;
    while k < lineup.channels.len()
        invariant
            k <= lineup.channels@.len(),
            styles@.len() == nchan + 2,
            styles_fit(styles@, nets@.len() as int),
            (net_views(nets@), styles@) == overridden_all(
                start,
                plain,
                lineup.channels@,
                nchan as int,
                k as int,
            ),
        decreases lineup.channels@.len() - k,
    {
        let c = &lineup.channels[k];
        if c.number > 0 && c.number <= nchan {
            apply_entry(nets, &mut styles, c);
        }
        k += 1;
    }
    styles
}

// ---------------------------------------------------------------- the station

/// A schedule with nothing on.
pub fn silent() -> (r: Schedule)
    ensures
        r.programs@.len() == 0,
        r.total == 0,
        forall|files: Seq<FileInfo>| #[trigger] r.laid_out(files),
{
    let r = Schedule { programs: Vec::new(), total: 0 };
    assert(r.playlist() =~= Seq::empty());
    r
}

/// The station of a library: channel 0 is the guide (no schedule); real channels are 1 to
/// `nchan`; the weather page, if configured, is the one behind them (no schedule either). With the
/// two, there are no more channels than a `Vec` can hold elements.
pub fn assemble(
    files: Vec<FileInfo>,
    nchan: usize,
    styles: Vec<ChanStyle>,
    nets: Vec<Network>,
    manual: &Vec<Manual>,
    weather: bool,
) -> (r: Station)
    requires
        1 <= nchan <= isize::MAX - 2,
        styles_fit(styles@, nets@.len() as int),
        lineup_fits(manual@, nchan as int, files@.len() as int),
    ensures
        r.wf(),
        r.files == files,
        r.styles == styles,
        r.nets == nets,
        r.count() == nchan + (if weather {
            2int
        } else {
            1
        }),
        r.weather == (if weather {
            Some((nchan + 1) as usize)
        } else {
            None
        }),
        forall|ch: int|
            1 <= ch <= nchan ==> (#[trigger] r.scheds@[ch]).playlist() == playlists(
                files@,
                nchan as nat,
                styles@,
                nets@,
                manual@,
            )[ch - 1],
{
    let mut scheds = build_schedules(&files, nchan, &styles, &nets, manual);
    let ghost built = scheds@;
    let ghost lists = playlists(files@, nchan as nat, styles@, nets@, manual@);
    assert(built.map_values(|s: Schedule| s.playlist()) == lists);
    scheds.insert(0, silent());
    let w = if weather {
        let at = scheds.len();
        scheds.push(silent());
        Some(at)
    } else {
        None
    };
    proof {
        assert forall|ch: int| 1 <= ch <= nchan implies (#[trigger] scheds@[ch]).playlist()
            == lists[ch - 1] by {
            assert(scheds@[ch] == built[ch - 1]);
            assert(built.map_values(|s: Schedule| s.playlist())[ch - 1] == lists[ch - 1]);
        }
        assert forall|c: int| 0 <= c < scheds@.len() implies (#[trigger] scheds@[c]).laid_out(
            files@,
        ) by {
            if 1 <= c <= nchan {
                assert(scheds@[c] == built[c - 1]);
            }
        }
    }
    Station { files, scheds, nets, styles, weather: w }
}

// ---------------------------------------------------------------- what the loading screen says

/// What the loader is at.
pub enum Step {
    /// Indexing the library in this folder.
    Library(String),
    /// Indexing a folder of a lineup channel.
    Channel(usize, String),
    /// Indexing the idents in this folder.
    Idents(String),
    Logos,
    /// Dealing to so many channels.
    Deal(usize),
    Prime,
}

impl Step {
    pub open spec fn said(self) -> Seq<char> {
        match self {
            Step::Library(dir) => "indexing "@ + dir@,
            Step::Channel(n, dir) => "indexing channel "@ + decimal(n as nat) + " : "@ + dir@,
            Step::Idents(dir) => "indexing idents in "@ + dir@,
            Step::Logos => "loading network logos"@,
            Step::Deal(n) => "building "@ + decimal(n as nat) + " channels"@,
            Step::Prime => "priming channels"@,
        }
    }

    /// The step in words, for the log.
    pub fn status(&self) -> (r: String)
        ensures
            r@ == self.said(),
    {
        match self {
            Step::Library(dir) => {
                let mut s = "indexing ".to_owned();
                s.append(dir.as_str());
                s
            },
            Step::Channel(n, dir) => {
                let mut s = "indexing channel ".to_owned();
                push_decimal(&mut s, *n as u64);
                s.append(" : ");
                s.append(dir.as_str());
                s
            },
            Step::Idents(dir) => {
                let mut s = "indexing idents in ".to_owned();
                s.append(dir.as_str());
                s
            },
            Step::Logos => "loading network logos".to_owned(),
            Step::Deal(n) => {
                let mut s = "building ".to_owned();
                push_decimal(&mut s, *n as u64);
                s.append(" channels");
                s
            },
            Step::Prime => "priming channels".to_owned(),
        }
    }

    /// The step as the loading screen shows it: upper case.
    pub fn screen_line(&self) -> (r: String)
        ensures
            r@ == uppercase(self.said()),
    {
        let s = self.status();
        to_uppercase(s.as_str())
    }
}

/// What is said when the library is empty.
pub open spec fn nothing_found(dir: Seq<char>) -> Seq<char> {
    "No video files found in\n"@ + dir
        + "\n\nSet the content library folder in the set up tool. Open it now?"@
}

/// The loading fails when there is nothing to show: the message, which offers the set up tool.
pub fn check_library(files: &Vec<FileInfo>, dir: &str) -> (r: Result<(), String>)
    ensures
        files@.len() > 0 <==> r is Ok,
        r matches Err(m) ==> m@ == nothing_found(dir@),
{
    if files.len() > 0 {
        return Ok(());
    }
    let mut m = "No video files found in\n".to_owned();
    m.append(dir);
    m.append("\n\nSet the content library folder in the set up tool. Open it now?");
    Err(m)
}

// ---------------------------------------------------------------- what loading keeps to

/// A file that a lineup channel's folders add to the library is one that was not in it, whatever
/// the case of its path, and it is one of those found there.
pub proof fn no_file_is_added_twice(files: Seq<FileInfo>, found: Seq<FileInfo>, k: int, j: int)
    requires
        0 <= k <= found.len(),
        files.len() <= j < pinned(files, found, k).0.len(),
    ensures
        forall|i: int|
            0 <= i < j ==> lowercase((#[trigger] pinned(files, found, k).0[i]).path@) != lowercase(
                pinned(files, found, k).0[j].path@,
            ),
        found.contains(pinned(files, found, k).0[j]),
    decreases k,
{
    if k > 0 {
        let (all, at) = pinned(files, found, k - 1);
        let (all2, at2) = pinned(files, found, k);
        if j < all.len() {
            no_file_is_added_twice(files, found, k - 1, j);
            assert forall|i: int| 0 <= i < j implies lowercase((#[trigger] all2[i]).path@)
                != lowercase(all2[j].path@) by {
                assert(all2[i] == all[i]);
            }
        } else {
            lemma_file_at(all, lowercase(found[k - 1].path@));
            assert forall|i: int| 0 <= i < j implies lowercase((#[trigger] all2[i]).path@)
                != lowercase(all2[j].path@) by {
                assert(all2[i] == all[i]);
            }
            assert(found[k - 1] == all2[j]);
        }
    }
}

/// How many files the folders of the first `k` channels hold.
pub open spec fn found_count(found: Seq<Found>, k: int) -> nat
    decreases k,
{
    if k <= 0 {
        0
    } else {
        found_count(found, k - 1) + found[k - 1].files@.len()
    }
}

/// Entry `m` of the lineup is what was found for a channel: its number, whether it shuffles, its
/// idents, and its files, one by one, by where they are in the library.
pub open spec fn is_what_was_found(m: ManualView, f: Found, all: Seq<FileInfo>) -> bool {
    &&& m.channel == f.channel
    &&& m.shuffle == f.shuffle
    &&& m.idents == f.idents@
    &&& m.files.len() == f.files@.len()
    &&& forall|x: int|
        0 <= x < m.files.len() ==> #[trigger] m.files[x] < all.len() && lowercase(
            all[m.files[x] as int].path@,
        ) == lowercase(f.files@[x].path@)
}

/// Of the last folders found for a channel the lineup has an entry with all that they hold, and
/// the library keeps the files that it had.
pub proof fn each_lineup_channel_has_its_files(
    files: Seq<FileInfo>,
    found: Seq<Found>,
    k: int,
    i: int,
) -> (at: int)
    requires
        0 <= i < k <= found.len(),
        forall|j: int| i < j < k ==> (#[trigger] found[j]).channel != found[i].channel,
        files.len() + found_count(found, k) <= usize::MAX,
    ensures
        0 <= at < pinned_all(files, found, k).1.len(),
        is_what_was_found(
            pinned_all(files, found, k).1[at],
            found[i],
            pinned_all(files, found, k).0,
        ),
    decreases k,
{
    let (all, manual) = pinned_all(files, found, k - 1);
    let f = found[k - 1];
    lemma_pinned_count(files, found, k - 1);
    pinned_files_are_found(all, f.files@, f.files@.len() as int);
    let (more, list) = pinned(all, f.files@, f.files@.len() as int);
    lemma_entry_at(manual, f.channel);
    let out = pinned_all(files, found, k).1;
    if i == k - 1 {
        match entry_at(manual, f.channel) {
            Some(p) => p,
            None => manual.len() as int,
        }
    } else {
        let p = each_lineup_channel_has_its_files(files, found, k - 1, i);
        assert(out[p] == manual[p]);
        let m = manual[p];
        assert forall|x: int| 0 <= x < m.files.len() implies #[trigger] m.files[x] < more.len()
            && lowercase(more[m.files[x] as int].path@) == lowercase(found[i].files@[x].path@) by {
            assert(m.files[x] < all.len());
            assert(more[m.files[x] as int] == more.take(all.len() as int)[m.files[x] as int]);
        }
        p
    }
}

proof fn lemma_pinned_count(files: Seq<FileInfo>, found: Seq<Found>, k: int)
    requires
        0 <= k <= found.len(),
        files.len() + found_count(found, k) <= usize::MAX,
    ensures
        files.len() <= pinned_all(files, found, k).0.len() <= files.len() + found_count(found, k),
        pinned_all(files, found, k).0.take(files.len() as int) == files,
    decreases k,
{
    if k > 0 {
        lemma_pinned_count(files, found, k - 1);
        let all = pinned_all(files, found, k - 1).0;
        let more = pinned_all(files, found, k).0;
        pinned_files_are_found(all, found[k - 1].files@, found[k - 1].files@.len() as int);
        assert(more.take(files.len() as int) =~= more.take(all.len() as int).take(
            files.len() as int,
        ));
    } else {
        assert(files.take(files.len() as int) =~= files);
    }
}

/// The library keeps what it had, in place, whatever the lineup's folders add.
pub proof fn the_library_stays(files: Seq<FileInfo>, found: Seq<Found>, i: int)
    requires
        0 <= i < files.len(),
        files.len() + found_count(found, found.len() as int) <= usize::MAX,
    ensures
        i < pinned_all(files, found, found.len() as int).0.len(),
        pinned_all(files, found, found.len() as int).0[i] == files[i],
{
    lemma_pinned_count(files, found, found.len() as int);
    let all = pinned_all(files, found, found.len() as int).0;
    assert(all.take(files.len() as int)[i] == all[i]);
}

/// An ident is the file that it was, flagged, and nothing else of it is another.
pub proof fn an_ident_is_a_flagged_file(f: FileInfo)
    ensures
        as_ident(f).bumper,
        as_ident(f).path == f.path && as_ident(f).stem == f.stem && as_ident(f).folder == f.folder,
        as_ident(f).duration == f.duration && as_ident(f).width == f.width && as_ident(f).height
            == f.height && as_ident(f).title == f.title,
{
}

/// What names a folder of idents: a file in it that is an ident.
pub open spec fn is_ident_in(f: FileInfo, name: Seq<char>) -> bool {
    f.bumper && f.folder is Some && cleaned(f.folder->0@) == name
}

proof fn lemma_ident_folders(files: Seq<FileInfo>, name: Seq<char>)
    ensures
        ident_folders(files).contains(name) <==> exists|i: int|
            0 <= i < files.len() && is_ident_in(#[trigger] files[i], name),
    decreases files.len(),
{
    if files.len() > 0 {
        let t = files.drop_last();
        lemma_ident_folders(t, name);
        let (all, rest) = (ident_folders(files), ident_folders(t));
        if all.contains(name) {
            let p = choose|p: int| 0 <= p < all.len() && all[p] == name;
            if p < rest.len() {
                assert(rest[p] == name);
                let i = choose|i: int| 0 <= i < t.len() && is_ident_in(#[trigger] t[i], name);
                assert(is_ident_in(files[i], name));
            } else {
                assert(is_ident_in(files[files.len() - 1], name));
            }
        }
        if exists|i: int| 0 <= i < files.len() && is_ident_in(#[trigger] files[i], name) {
            let i = choose|i: int| 0 <= i < files.len() && is_ident_in(#[trigger] files[i], name);
            if i < t.len() {
                assert(is_ident_in(t[i], name));
                let p = choose|p: int| 0 <= p < rest.len() && rest[p] == name;
                assert(all[p] == name);
            } else {
                assert(all[rest.len() as int] == name);
            }
        }
    }
}

proof fn lemma_without_repeats(s: Seq<Seq<char>>)
    requires
        forall|i: int, j: int| 0 <= i < j < s.len() ==> !text_lt(#[trigger] s[j], #[trigger] s[i]),
    ensures
        ({
            let r = without_repeats(s);
            &&& forall|i: int, j: int|
                0 <= i < j < r.len() ==> text_lt(#[trigger] r[i], #[trigger] r[j])
            &&& forall|x: Seq<char>| r.contains(x) <==> s.contains(x)
            &&& s.len() > 0 ==> r.len() > 0 && r.last() == s.last()
        }),
    decreases s.len(),
{
    let r = without_repeats(s);
    if s.len() > 1 {
        let t = s.drop_last();
        assert forall|i: int, j: int| 0 <= i < j < t.len() implies !text_lt(
            #[trigger] t[j],
            #[trigger] t[i],
        ) by {
            assert(t[i] == s[i] && t[j] == s[j]);
        }
        lemma_without_repeats(t);
        let q = without_repeats(t);
        assert(t.last() == s[s.len() - 2]);
        if s.last() == t.last() {
            assert forall|x: Seq<char>| r.contains(x) <==> s.contains(x) by {
                if s.contains(x) {
                    let i = choose|i: int| 0 <= i < s.len() && s[i] == x;
                    if i < t.len() {
                        assert(t[i] == x);
                    } else {
                        assert(t[t.len() - 1] == x);
                    }
                    assert(t.contains(x));
                }
                if t.contains(x) {
                    let i = choose|i: int| 0 <= i < t.len() && t[i] == x;
                    assert(s[i] == x);
                }
            }
        } else {
            assert(!text_lt(s[s.len() - 1], s[s.len() - 2]));
            text_order_is_total(t.last(), s.last());
            assert forall|i: int, j: int| 0 <= i < j < r.len() implies text_lt(
                #[trigger] r[i],
                #[trigger] r[j],
            ) by {
                if j < q.len() {
                    assert(r[i] == q[i] && r[j] == q[j]);
                } else if i < q.len() - 1 {
                    assert(text_lt(q[i], q[q.len() - 1]));
                    text_order_is_transitive(q[i], t.last(), s.last());
                }
            }
            assert forall|x: Seq<char>| r.contains(x) <==> s.contains(x) by {
                if r.contains(x) {
                    let i = choose|i: int| 0 <= i < r.len() && r[i] == x;
                    if i < q.len() {
                        assert(q[i] == x);
                        assert(t.contains(x));
                        let k = choose|k: int| 0 <= k < t.len() && t[k] == x;
                        assert(s[k] == x);
                    } else {
                        assert(s[s.len() - 1] == x);
                    }
                }
                if s.contains(x) {
                    let i = choose|i: int| 0 <= i < s.len() && s[i] == x;
                    if i < t.len() {
                        assert(t[i] == x);
                        assert(q.contains(x));
                        let k = choose|k: int| 0 <= k < q.len() && q[k] == x;
                        assert(r[k] == x);
                    } else {
                        assert(r[q.len() as int] == x);
                    }
                }
            }
        }
    }
}

proof fn lemma_in_order(s: Seq<Seq<char>>)
    requires
        s.len() <= usize::MAX,
    ensures
        forall|i: int, j: int|
            0 <= i < j < in_order(s).len() ==> !text_lt(
                #[trigger] in_order(s)[j],
                #[trigger] in_order(s)[i],
            ),
        forall|x: Seq<char>| in_order(s).contains(x) <==> s.contains(x),
{
    sorting_is_stable(numbers(s.len()), s);
    let p = sort_by(numbers(s.len()), s);
    lemma_permuted_numbers(p, s.len());
    let o = in_order(s);
    assert forall|x: Seq<char>| o.contains(x) <==> s.contains(x) by {
        if o.contains(x) {
            let i = choose|i: int| 0 <= i < o.len() && o[i] == x;
            assert(s[p[i] as int] == x);
        }
        if s.contains(x) {
            let i = choose|i: int| 0 <= i < s.len() && s[i] == x;
            assert(p.contains(i as usize));
            let k = choose|k: int| 0 <= k < p.len() && p[k] == i as usize;
            assert(o[k] == x);
        }
    }
    assert forall|i: int, j: int| 0 <= i < j < o.len() implies !text_lt(
        #[trigger] o[j],
        #[trigger] o[i],
    ) by {
        assert(!text_lt(s[p[j] as int], s[p[i] as int]));
    }
}

/// The ident folders are listed in alphabetical order, each once, and a name is listed exactly
/// where an ident came from a folder of that name.
pub proof fn each_ident_folder_is_listed_once(files: Seq<FileInfo>, name: Seq<char>)
    requires
        ident_folders(files).len() <= usize::MAX,
    ensures
        ({
            let r = without_repeats(in_order(ident_folders(files)));
            &&& forall|i: int, j: int|
                0 <= i < j < r.len() ==> text_lt(#[trigger] r[i], #[trigger] r[j])
            &&& r.contains(name) <==> exists|i: int|
                0 <= i < files.len() && is_ident_in(#[trigger] files[i], name)
        }),
{
    lemma_ident_folders(files, name);
    lemma_in_order(ident_folders(files));
    lemma_without_repeats(in_order(ident_folders(files)));
}

proof fn lemma_named_network(nets: Seq<NetworkView>, name: Seq<char>)
    ensures
        match named_network(nets, name) {
            Some(i) => 0 <= i < nets.len() && same_ignoring_case(nets[i].name, name) && forall|j: int|
                0 <= j < i ==> !same_ignoring_case((#[trigger] nets[j]).name, name),
            None => forall|j: int|
                0 <= j < nets.len() ==> !same_ignoring_case((#[trigger] nets[j]).name, name),
        },
    decreases nets.len(),
{
    if nets.len() > 0 {
        let t = nets.drop_last();
        lemma_named_network(t, name);
        match named_network(t, name) {
            Some(i) => {
                assert forall|j: int| 0 <= j < i implies !same_ignoring_case(
                    (#[trigger] nets[j]).name,
                    name,
                ) by {
                    assert(t[j] == nets[j]);
                }
            },
            None => {
                assert forall|j: int| 0 <= j < nets.len() - 1 implies !same_ignoring_case(
                    (#[trigger] nets[j]).name,
                    name,
                ) by {
                    assert(t[j] == nets[j]);
                }
            },
        }
    }
}

/// A lineup entry changes the dressing of its own channel and of no other, and the networks stay
/// as they are, but for one that may be added.
pub proof fn a_lineup_entry_changes_its_own_channel(
    nets: Seq<NetworkView>,
    styles: Seq<ChanStyle>,
    c: LineupChannel,
    ch: int,
)
    requires
        c.number < styles.len(),
        0 <= ch < styles.len(),
    ensures
        ({
            let (n, s) = overridden(nets, styles, c);
            &&& s.len() == styles.len()
            &&& ch != c.number ==> s[ch] == styles[ch]
            &&& nets.len() <= n.len() <= nets.len() + 1
            &&& n.take(nets.len() as int) == nets
        }),
{
    let n = overridden(nets, styles, c).0;
    assert(n.take(nets.len() as int) =~= nets);
}

/// What a lineup entry says of the dressing is what its channel gets: the logo off or in one of
/// three corners, the clock on or off, the headlines on or off. What it does not say stays.
pub proof fn a_lineup_entry_is_obeyed(
    nets: Seq<NetworkView>,
    styles: Seq<ChanStyle>,
    c: LineupChannel,
)
    requires
        c.number < styles.len(),
    ensures
        ({
            let (a, b) = (styles[c.number as int], overridden(nets, styles, c).1[c.number as int]);
            &&& c.bug@ == "off"@ ==> b.bug == 0
            &&& c.bug@ == "br"@ ==> b.bug == 1
            &&& c.bug@ == "bl"@ ==> b.bug == 2
            &&& c.bug@ == "tl"@ ==> b.bug == 3
            &&& c.bug@.len() == 0 ==> b.bug == a.bug
            &&& c.clock@ == "on"@ ==> b.clock
            &&& c.clock@ == "off"@ ==> !b.clock
            &&& c.clock@.len() == 0 ==> b.clock == a.clock
            &&& c.ticker@ == "on"@ ==> b.ticker
            &&& c.ticker@ == "off"@ ==> !b.ticker
            &&& c.ticker@.len() == 0 ==> b.ticker == a.ticker
        }),
{
    reveal_strlit("off");
    reveal_strlit("on");
    reveal_strlit("br");
    reveal_strlit("bl");
    reveal_strlit("tl");
    assert("off"@.len() == 3 && "on"@.len() == 2 && "br"@.len() == 2 && "bl"@.len() == 2 && "tl"@.len()
        == 2);
    assert("off"@ != "on"@ && "off"@ != "br"@ && "off"@ != "bl"@ && "off"@ != "tl"@);
    assert("br"@[1] == 'r' && "bl"@[1] == 'l' && "br"@[0] == 'b' && "tl"@[0] == 't');
    assert("br"@ != "bl"@ && "br"@ != "tl"@ && "bl"@ != "tl"@);
}

/// A channel that the lineup names is of a network of that name, and one whose logo it names shows
/// the logo of the first network called so; one with neither stays with its network.
pub proof fn a_lineup_entry_names_its_network(
    nets: Seq<NetworkView>,
    styles: Seq<ChanStyle>,
    c: LineupChannel,
    i: int,
)
    requires
        c.number < styles.len(),
        nets.len() <= usize::MAX,
    ensures
        ({
            let (n, s) = overridden(nets, styles, c);
            let net = s[c.number as int].net;
            &&& c.name@.len() > 0 ==> net < n.len() && same_ignoring_case(
                n[net as int].name,
                c.name@,
            )
            &&& c.logo@.len() > 0 && 0 <= i < nets.len() && same_ignoring_case(
                nets[i].name,
                c.logo@,
            ) && (forall|j: int|
                0 <= j < i ==> !same_ignoring_case((#[trigger] nets[j]).name, c.logo@))
                ==> net < n.len() && n[net as int].logo == nets[i].logo && (c.name@.len() == 0
                ==> net == i)
            &&& c.name@.len() == 0 && c.logo@.len() == 0 ==> net == styles[c.number as int].net
        }),
{
    lemma_named_network(nets, c.logo@);
    if let Some(k) = named_network(nets, c.logo@) {
        if 0 <= i < nets.len() && same_ignoring_case(nets[i].name, c.logo@) && (forall|j: int|
            0 <= j < i ==> !same_ignoring_case((#[trigger] nets[j]).name, c.logo@)) {
            if i < k {
                assert(!same_ignoring_case(nets[i].name, c.logo@));
            } else if k < i {
                assert(!same_ignoring_case(nets[k].name, c.logo@));
            }
        }
    }
}

/// The last entry for a channel that names its network has its say in the end: those that follow
/// are for other channels, or for none, and leave it.
pub proof fn entries_for_other_channels_leave_it(
    nets: Seq<NetworkView>,
    styles: Seq<ChanStyle>,
    lineup: Seq<LineupChannel>,
    n: int,
    a: int,
    b: int,
    ch: int,
)
    requires
        0 <= a <= b <= lineup.len(),
        0 <= ch < styles.len(),
        n < styles.len(),
        forall|i: int| a <= i < b ==> (#[trigger] lineup[i]).number != ch || ch > n || ch == 0,
    ensures
        overridden_all(nets, styles, lineup, n, b).1.len() == styles.len(),
        overridden_all(nets, styles, lineup, n, b).1[ch] == overridden_all(
            nets,
            styles,
            lineup,
            n,
            a,
        ).1[ch],
    decreases b,
{
    if b > 0 {
        if a < b {
            entries_for_other_channels_leave_it(nets, styles, lineup, n, a, b - 1, ch);
            assert(lineup[b - 1].number != ch || ch > n || ch == 0);
        } else {
            entries_for_other_channels_leave_it(nets, styles, lineup, n, b - 1, b - 1, ch);
        }
    }
}

} // verus!
