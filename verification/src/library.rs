//! The library index: what is known of a file, and how files are named and told apart.

use vstd::prelude::*;
use crate::paths::{
    folder_at, is_folder_at, is_stem_at, may_be_same, must_be_same, same_path, stem_at,
};
use crate::text::{
    chars_of, contains, eq_ignore_ascii_case, find, has_text, is_space, likeness_is_about_letters,
    lowercase, occurs_at, same_ignoring_case, same_text, string_range, to_lowercase, to_uppercase,
    trim, trimmed, trimming_leaves_a_part, uppercase,
};

verus! {

/// A file of the library. Durations are whole microseconds.
pub struct FileInfo {
    pub path: String,
    /// The file's name without its extension.
    pub stem: String,
    /// The name of the folder that holds the file, where the path has one.
    pub folder: Option<String>,
    pub duration: u64,
    pub width: u32,
    pub height: u32,
    /// From container/stream tags (title, description, comment) when the file has any.
    pub title: Option<String>,
    /// Station ident / bumper (from the bumpers folder), not a program.
    pub bumper: bool,
}

impl FileInfo {
    /// A file with nothing known of it but its path, and the names that the path holds.
    pub fn at(path: String) -> (r: FileInfo)
        ensures
            r.path == path,
            is_stem_at(path@, r.stem@),
            is_folder_at(path@, text_of(r.folder)),
            r.duration == 0 && r.width == 0 && r.height == 0,
            r.title is None,
            !r.bumper,
    {
        let stem = stem_at(path.as_str());
        let folder = folder_at(path.as_str());
        FileInfo {
            path,
            stem,
            folder,
            duration: 0,
            width: 0,
            height: 0,
            title: None,
            bumper: false,
        }
    }
}

pub open spec fn text_of(o: Option<String>) -> Option<Seq<char>> {
    match o {
        Some(s) => Some(s@),
        None => None,
    }
}

// ---------------------------------------------------------------- names

/// `i` is the first position of `needle` in `hay`.
pub open spec fn is_first(hay: Seq<char>, needle: Seq<char>, i: int) -> bool {
    occurs_at(hay, needle, i) && forall|j: int| 0 <= j < i ==> !occurs_at(hay, needle, j)
}

/// A name without the qualifier in brackets behind it, and trimmed.
pub open spec fn cleaned(stem: Seq<char>) -> Seq<char> {
    if has_text(stem, " ("@) {
        trimmed(stem.take(choose|i: int| is_first(stem, " ("@, i)))
    } else {
        trimmed(stem)
    }
}

/// "MTV (US)" becomes "MTV"; "FOX (US)" and "FOX" collapse to one network.
pub fn clean_name(stem: &str) -> (r: String)
    ensures
        r@ == cleaned(stem@),
{
    let v = chars_of(stem);
    let p = chars_of(" (");
    match find(&v, &p) {
        Some(i) => {
            proof {
                assert(is_first(stem@, " ("@, i as int));
                let k = choose|k: int| is_first(stem@, " ("@, k);
                assert(k == i);
                assert(v@.subrange(0, i as int) =~= stem@.take(k));
            }
            let head = string_range(&v, 0, i);
            trim(head.as_str())
        },
        None => trim(stem),
    }
}

/// A text that is cut off where `needle` first stands in it, or a part of that, holds no `needle`.
proof fn lemma_no_text(s: Seq<char>, needle: Seq<char>, end: int, a: int, b: int)
    requires
        0 <= a <= b <= end <= s.len(),
        needle.len() > 0,
        forall|j: int| 0 <= j < end && j + needle.len() <= end ==> !occurs_at(s, needle, j),
    ensures
        !has_text(s.subrange(a, b), needle),
{
    let t = s.subrange(a, b);
    assert forall|i: int| !occurs_at(t, needle, i) by {
        if occurs_at(t, needle, i) {
            assert(t.subrange(i, i + needle.len()) =~= s.subrange(a + i, a + i + needle.len()));
            assert(occurs_at(s, needle, a + i));
        }
    }
}

/// A cleaned name is a part of the name, has no white space at either end and no bracket behind a
/// space.
pub proof fn cleaning_leaves_a_part(stem: Seq<char>) -> (a: int)
    ensures
        0 <= a,
        a + cleaned(stem).len() <= stem.len(),
        cleaned(stem) == stem.subrange(a, a + cleaned(stem).len()),
        cleaned(stem).len() > 0 ==> !is_space(cleaned(stem)[0]) && !is_space(cleaned(stem).last()),
        !has_text(cleaned(stem), " ("@),
        trimmed(cleaned(stem)) == cleaned(stem),
{
    reveal_strlit(" (");
    let n = cleaned(stem).len() as int;
    if has_text(stem, " ("@) {
        let i = lemma_first(stem, " ("@);
        let k = choose|k: int| is_first(stem, " ("@, k);
        assert(k == i);
        let head = stem.take(i);
        let a = trimming_leaves_a_part(head);
        assert(head.subrange(a, a + n) =~= stem.subrange(a, a + n));
        lemma_no_text(stem, " ("@, i, a, a + n);
        a
    } else {
        let a = trimming_leaves_a_part(stem);
        lemma_no_text(stem, " ("@, stem.len() as int, a, a + n);
        a
    }
}

/// What stands in a text has a first position there.
proof fn lemma_first(hay: Seq<char>, needle: Seq<char>) -> (i: int)
    requires
        has_text(hay, needle),
    ensures
        is_first(hay, needle, i),
        0 <= i <= hay.len(),
{
    let j = choose|j: int| occurs_at(hay, needle, j);
    lemma_first_before(hay, needle, j)
}

proof fn lemma_first_before(hay: Seq<char>, needle: Seq<char>, j: int) -> (i: int)
    requires
        occurs_at(hay, needle, j),
    ensures
        is_first(hay, needle, i),
        0 <= i <= hay.len(),
    decreases j,
{
    if exists|k: int| 0 <= k < j && occurs_at(hay, needle, k) {
        let k = choose|k: int| 0 <= k < j && occurs_at(hay, needle, k);
        lemma_first_before(hay, needle, k)
    } else {
        j
    }
}

/// Cleaning a cleaned name changes nothing, and a qualifier in brackets put behind it is taken off
/// again: "MTV" and "MTV (US)" are one network.
pub proof fn cleaning_collapses_qualified_names(stem: Seq<char>, x: Seq<char>)
    ensures
        cleaned(cleaned(stem)) == cleaned(stem),
        cleaned(cleaned(stem) + " ("@ + x + ")"@) == cleaned(stem),
{
    reveal_strlit(" (");
    let r = cleaned(stem);
    let a = cleaning_leaves_a_part(stem);
    let s = r + " ("@ + x + ")"@;
    let n = r.len() as int;
    assert(s.subrange(n, n + 2) =~= " ("@);
    assert(occurs_at(s, " ("@, n));
    assert forall|j: int| 0 <= j < n implies !occurs_at(s, " ("@, j) by {
        if occurs_at(s, " ("@, j) {
            assert(s.subrange(j, j + 2)[0] == s[j]);
            assert(s.subrange(j, j + 2)[1] == s[j + 1]);
            if j + 2 <= n {
                assert(r.subrange(j, j + 2) =~= s.subrange(j, j + 2));
                assert(occurs_at(r, " ("@, j));
            } else {
                assert(r.last() == s[j]);
            }
        }
    }
    assert(is_first(s, " ("@, n));
    let k = choose|k: int| is_first(s, " ("@, k);
    assert(k == n);
    assert(s.take(n) =~= r);
}

/// The first `n` characters of `s`.
pub open spec fn first_chars(s: Seq<char>, n: nat) -> Seq<char> {
    if s.len() <= n {
        s
    } else {
        s.take(n as int)
    }
}

/// A text of at most `n` characters that `s` begins with: all of it, or as many as fit.
pub open spec fn begins_with(t: Seq<char>, s: Seq<char>, n: int) -> bool {
    &&& t.len() <= s.len() && t.len() <= n
    &&& t == s.take(t.len() as int)
    &&& t.len() == s.len() || t.len() == n
}

/// What is cut to `n` characters is the beginning of the text, as much as fits.
pub proof fn cutting_keeps_the_beginning(s: Seq<char>, n: nat)
    ensures
        begins_with(first_chars(s, n), s, n as int),
{
    if s.len() <= n {
        assert(s.take(s.len() as int) =~= s);
    }
}

/// The first `n` characters of `s`.
pub fn cut(s: &str, n: usize) -> (r: String)
    ensures
        r@ == first_chars(s@, n as nat),
{
    let v = chars_of(s);
    let m: usize = if v.len() <= n { v.len() } else { n };
    proof {
        assert(v@.subrange(0, v@.len() as int) =~= v@);
    }
    string_range(&v, 0, m)
}

/// `s` without a "_raw" at its end.
pub open spec fn without_raw(s: Seq<char>) -> Seq<char> {
    if s.len() >= 4 && s.skip(s.len() - 4) == "_raw"@ {
        s.take(s.len() - 4)
    } else {
        s
    }
}

fn strip_raw(s: &str) -> (r: String)
    ensures
        r@ == without_raw(s@),
{
    let v = chars_of(s);
    let n: usize = v.len();
    proof {
        reveal_strlit("_raw");
        let end = s@.skip(n - 4);
        assert("_raw"@ =~= seq!['_', 'r', 'a', 'w']);
        if n >= 4 && end == "_raw"@ {
            assert(end[0] == v@[n - 4]);
            assert(end[1] == v@[n - 3]);
            assert(end[2] == v@[n - 2]);
            assert(end[3] == v@[n - 1]);
        }
        assert(v@.subrange(0, n as int) =~= s@);
    }
    if n >= 4 && v[n - 4] == '_' && v[n - 3] == 'r' && v[n - 2] == 'a' && v[n - 1] == 'w' {
        proof {
            assert(s@.skip(n - 4) =~= "_raw"@);
            assert(v@.subrange(0, n - 4) =~= s@.take(n - 4));
        }
        return string_range(&v, 0, n - 4);
    }
    string_range(&v, 0, n)
}

/// What a file is called on screen.
pub open spec fn shown_name(f: FileInfo, max: nat) -> Seq<char> {
    let name = match f.title {
        Some(t) => t@,
        None => without_raw(f.stem@),
    };
    first_chars(uppercase(name), max)
}

/// Display name of a library file: its tagged title if it has one, else the stem without a
/// trailing "_raw". Uppercased and cut to `max` characters for the guide grid.
pub fn prog_name(f: &FileInfo, max: usize) -> (r: String)
    ensures
        r@ == shown_name(*f, max as nat),
{
    let up = match &f.title {
        Some(t) => to_uppercase(t.as_str()),
        None => {
            let s = strip_raw(f.stem.as_str());
            to_uppercase(s.as_str())
        },
    };
    cut(up.as_str(), max)
}

// ---------------------------------------------------------------- tags

/// The tags of a container or of one of its streams.
pub struct Tags {
    pub title: Option<String>,
    pub description: Option<String>,
    pub comment: Option<String>,
    pub artist: Option<String>,
}

/// The text, trimmed, unless nothing is left of it.
pub open spec fn readable(o: Option<String>) -> Option<Seq<char>> {
    match o {
        Some(s) => if trimmed(s@).len() > 0 {
            Some(trimmed(s@))
        } else {
            None
        },
        None => None,
    }
}

fn read_tag(o: &Option<String>) -> (r: Option<String>)
    ensures
        text_of(r) == readable(*o),
{
    match o {
        Some(s) => {
            let s = trim(s.as_str());
            if s.as_str().is_empty() {
                None
            } else {
                Some(s)
            }
        },
        None => None,
    }
}

/// The first of title, description and comment with something readable in it.
pub open spec fn picked(t: Tags) -> Option<Seq<char>> {
    if readable(t.title) is Some {
        readable(t.title)
    } else if readable(t.description) is Some {
        readable(t.description)
    } else {
        readable(t.comment)
    }
}

fn pick(t: &Tags) -> (r: Option<String>)
    ensures
        text_of(r) == picked(*t),
{
    let title = read_tag(&t.title);
    if title.is_some() {
        return title;
    }
    let description = read_tag(&t.description);
    if description.is_some() {
        return description;
    }
    read_tag(&t.comment)
}

/// The title that a file's tags give it.
pub open spec fn tagged_title(fmt: Tags, stream: Option<Tags>) -> Option<Seq<char>> {
    let own = picked(fmt);
    let title = if own is Some {
        own
    } else {
        match stream {
            Some(s) => picked(s),
            None => None,
        }
    };
    match title {
        None => None,
        Some(t) => match fmt.artist {
            Some(a) => {
                let artist = trimmed(a@);
                if artist.len() > 0 && !has_text(lowercase(t), lowercase(artist)) {
                    Some(artist + " - "@ + t)
                } else {
                    Some(t)
                }
            },
            None => Some(t),
        },
    }
}

/// Best human-readable title from a file's tags: title, then description, then comment; also
/// "artist - title" for music. None when the file only has encoder boilerplate.
pub fn title_from_tags(fmt: &Tags, stream: Option<&Tags>) -> (r: Option<String>)
    ensures
        text_of(r) == tagged_title(*fmt, match stream { Some(s) => Some(*s), None => None }),
{
    let own = pick(fmt);
    let title = match own {
        Some(t) => t,
        None => match stream {
            Some(s) => match pick(s) {
                Some(t) => t,
                None => {
                    return None;
                },
            },
            None => {
                return None;
            },
        },
    };
    match &fmt.artist {
        Some(a) => {
            let artist = trim(a.as_str());
            if artist.as_str().is_empty() {
                return Some(title);
            }
            let low_title = to_lowercase(title.as_str());
            let low_artist = to_lowercase(artist.as_str());
            if contains(low_title.as_str(), low_artist.as_str()) {
                Some(title)
            } else {
                let mut s = artist;
                s.append(" - ");
                s.append(title.as_str());
                Some(s)
            }
        },
        None => Some(title),
    }
}

// ---------------------------------------------------------------- which files count

/// The file name extensions of videos.
pub open spec fn video_extension(e: Seq<char>) -> bool {
    ||| same_ignoring_case(e, "mp4"@)
    ||| same_ignoring_case(e, "m4v"@)
    ||| same_ignoring_case(e, "mov"@)
    ||| same_ignoring_case(e, "mkv"@)
    ||| same_ignoring_case(e, "webm"@)
    ||| same_ignoring_case(e, "avi"@)
    ||| same_ignoring_case(e, "mpg"@)
    ||| same_ignoring_case(e, "mpeg"@)
    ||| same_ignoring_case(e, "wmv"@)
}

/// Whether a file with this name extension is a video.
pub fn is_video(extension: Option<&str>) -> (r: bool)
    ensures
        r == (extension is Some && video_extension(extension->0@)),
{
    match extension {
        Some(e) => eq_ignore_ascii_case(e, "mp4") || eq_ignore_ascii_case(e, "m4v")
            || eq_ignore_ascii_case(e, "mov") || eq_ignore_ascii_case(e, "mkv")
            || eq_ignore_ascii_case(e, "webm") || eq_ignore_ascii_case(e, "avi")
            || eq_ignore_ascii_case(e, "mpg") || eq_ignore_ascii_case(e, "mpeg")
            || eq_ignore_ascii_case(e, "wmv"),
        None => false,
    }
}

/// The file name extensions of hold music.
pub open spec fn music_extension(e: Seq<char>) -> bool {
    ||| same_ignoring_case(e, "mp3"@)
    ||| same_ignoring_case(e, "mp4"@)
    ||| same_ignoring_case(e, "m4a"@)
    ||| same_ignoring_case(e, "ogg"@)
    ||| same_ignoring_case(e, "webm"@)
    ||| same_ignoring_case(e, "flac"@)
    ||| same_ignoring_case(e, "wav"@)
}

/// Whether a file with this name extension can be hold music.
pub fn is_music(extension: Option<&str>) -> (r: bool)
    ensures
        r == (extension is Some && music_extension(extension->0@)),
{
    match extension {
        Some(e) => eq_ignore_ascii_case(e, "mp3") || eq_ignore_ascii_case(e, "mp4")
            || eq_ignore_ascii_case(e, "m4a") || eq_ignore_ascii_case(e, "ogg")
            || eq_ignore_ascii_case(e, "webm") || eq_ignore_ascii_case(e, "flac")
            || eq_ignore_ascii_case(e, "wav"),
        None => false,
    }
}

/// What a walk through a folder does with one of its entries.
#[derive(Clone, Copy, PartialEq, Eq, Structural, Debug)]
pub enum Visit {
    Descend,
    Take,
    Skip,
}

/// Folders are entered when the walk is recursive; of the other entries, videos are taken.
pub fn walk_videos(is_dir: bool, recursive: bool, extension: Option<&str>) -> (r: Visit)
    ensures
        is_dir && recursive ==> r == Visit::Descend,
        is_dir && !recursive ==> r == Visit::Skip,
        !is_dir ==> r == (if extension is Some && video_extension(extension->0@) {
            Visit::Take
        } else {
            Visit::Skip
        }),
{
    if is_dir {
        if recursive {
            Visit::Descend
        } else {
            Visit::Skip
        }
    } else if is_video(extension) {
        Visit::Take
    } else {
        Visit::Skip
    }
}

/// An index of `listed` entries is current when as many paths were found, and each of them is the
/// one listed in its place.
pub fn lists_all(listed: usize, same: &Vec<bool>) -> (r: bool)
    ensures
        r == (listed == same@.len() && forall|i: int| 0 <= i < same@.len() ==> #[trigger] same@[i]),
{
    if listed != same.len() {
        return false;
    }
    let mut i: usize = 0;
    while i < same.len()
        invariant
            i <= same@.len(),
            forall|j: int| 0 <= j < i ==> #[trigger] same@[j],
        decreases same@.len() - i,
    {
        if !same[i] {
            return false;
        }
        i += 1;
    }
    true
}

/// A saved index is current when it lists exactly the paths found, in the same order. A path that
/// is not valid text (None) is never the one listed. Where a path holds a drive, a host or a '\\',
/// the system decides whether another text is the same path.
pub fn index_is_current(index: &Vec<FileInfo>, paths: &Vec<Option<String>>) -> (r: bool)
    ensures
        r ==> index@.len() == paths@.len() && forall|i: int|
            0 <= i < paths@.len() ==> (#[trigger] paths@[i]) is Some && may_be_same(
                index@[i].path@,
                paths@[i]->0@,
            ),
        index@.len() == paths@.len() && (forall|i: int|
            0 <= i < paths@.len() ==> (#[trigger] paths@[i]) is Some && must_be_same(
                index@[i].path@,
                paths@[i]->0@,
            )) ==> r,
{
    if index.len() != paths.len() {
        return false;
    }
    let mut same: Vec<bool> = Vec::new();
    let mut i: usize = 0;
    while i < index.len()
        invariant
            i <= index@.len() == paths@.len(),
            same@.len() == i,
            forall|j: int|
                0 <= j < i && #[trigger] same@[j] ==> paths@[j] is Some && may_be_same(
                    index@[j].path@,
                    paths@[j]->0@,
                ),
            forall|j: int|
                0 <= j < i && paths@[j] is Some && must_be_same(index@[j].path@, paths@[j]->0@)
                    ==> #[trigger] same@[j],
        decreases index@.len() - i,
    {
        let one = match &paths[i] {
            Some(p) => same_path(index[i].path.as_str(), p.as_str()),
            None => false,
        };
        same.push(one);
        i += 1;
    }
    let r = lists_all(index.len(), &same);
    proof {
        if r {
            assert forall|j: int| 0 <= j < paths@.len() implies (#[trigger] paths@[j]) is Some
                && may_be_same(index@[j].path@, paths@[j]->0@) by {
                assert(same@[j]);
            }
        }
        if forall|j: int|
            0 <= j < paths@.len() ==> (#[trigger] paths@[j]) is Some && must_be_same(
                index@[j].path@,
                paths@[j]->0@,
            ) {
            assert forall|j: int| 0 <= j < same@.len() implies #[trigger] same@[j] by {
                assert(paths@[j] is Some);
            }
        }
    }
    r
}

/// The length below which a file is not worth a slot: half a second.
pub const SHORTEST: u64 = 500_000;

/// Of the files that could be probed, those longer than half a second, in order.
pub open spec fn usable_files(found: Seq<Option<FileInfo>>) -> Seq<FileInfo>
    decreases found.len(),
{
    if found.len() == 0 {
        Seq::empty()
    } else {
        let rest = usable_files(found.drop_last());
        match found.last() {
            Some(f) => if f.duration > SHORTEST {
                rest.push(f)
            } else {
                rest
            },
            None => rest,
        }
    }
}

/// Of the files that could be probed, those longer than half a second, in order.
pub fn usable(found: Vec<Option<FileInfo>>) -> (r: Vec<FileInfo>)
    ensures
        r@ == usable_files(found@),
{
    let mut out: Vec<FileInfo> = Vec::new();
    let ghost all = found@;
    for x in it: found
        invariant
            it.seq() == all,
            out@ == usable_files(all.take(it.index())),
    {
        proof {
            let t = all.take(it.index() + 1);
            assert(t.last() == x);
            assert(t.drop_last() =~= all.take(it.index()));
        }
        if let Some(f) = x {
            if f.duration > SHORTEST {
                out.push(f);
            }
        }
    }
    assert(all.take(all.len() as int) =~= all);
    out
}

/// The length of a stream in microseconds: its own tick count where it has one, else the
/// container's.
pub open spec fn duration_of(ticks: int, num: int, den: int, container: int) -> int {
    if ticks > 0 && num > 0 && den > 0 {
        ticks * num * 1_000_000 / den
    } else if container > 0 {
        container
    } else {
        0
    }
}

/// Duration of a stream of `ticks` ticks of `num`/`den` seconds each, in microseconds; `container`
/// is the container's own claim, for streams without one. Nothing is longer than a `u64` can say.
pub fn stream_duration(ticks: i64, num: i32, den: i32, container: i64) -> (r: u64)
    ensures
        r == (if duration_of(ticks as int, num as int, den as int, container as int) > u64::MAX {
            u64::MAX as int
        } else {
            duration_of(ticks as int, num as int, den as int, container as int)
        }),
{
    if ticks > 0 && num > 0 && den > 0 {
        proof {
            assert(ticks * num <= 0x7fff_ffff_ffff_ffff * 0x7fff_ffff) by (nonlinear_arith)
                requires
                    0 < ticks <= 0x7fff_ffff_ffff_ffff,
                    0 < num <= 0x7fff_ffff,
            ;
            assert(ticks * num >= 0) by (nonlinear_arith)
                requires
                    0 < ticks,
                    0 < num,
            ;
        }
        let d: u128 = (ticks as u128) * (num as u128) * 1_000_000 / (den as u128);
        if d > u64::MAX as u128 {
            u64::MAX
        } else {
            d as u64
        }
    } else if container > 0 {
        container as u64
    } else {
        0
    }
}

// ---------------------------------------------------------------- what files are called

/// On screen a file goes by its title, where it has one, whatever its stem; else by its stem, and a
/// "_raw" behind that makes no difference.
pub proof fn files_go_by_their_titles(f: FileInfo, g: FileInfo, max: nat)
    ensures
        f.title is Some && text_of(f.title) == text_of(g.title) ==> shown_name(f, max)
            == shown_name(g, max),
        f.title is Some ==> begins_with(shown_name(f, max), uppercase(f.title->0@), max as int),
        f.title is None && (f.stem@.len() < 4 || f.stem@.skip(f.stem@.len() - 4) != "_raw"@)
            ==> begins_with(shown_name(f, max), uppercase(f.stem@), max as int),
        f.title is None && g.title is None && f.stem@ == g.stem@ + "_raw"@ ==> begins_with(
            shown_name(f, max),
            uppercase(g.stem@),
            max as int,
        ),
{
    if f.title is Some {
        cutting_keeps_the_beginning(uppercase(f.title->0@), max);
    }
    cutting_keeps_the_beginning(uppercase(f.stem@), max);
    cutting_keeps_the_beginning(uppercase(g.stem@), max);
    reveal_strlit("_raw");
    if f.stem@ == g.stem@ + "_raw"@ {
        assert(f.stem@.skip(f.stem@.len() - 4) =~= "_raw"@);
        assert(f.stem@.take(f.stem@.len() - 4) =~= g.stem@);
    }
}

/// Something is written in a tag.
pub open spec fn says(o: Option<String>) -> bool {
    o matches Some(s) && trimmed(s@).len() > 0
}

/// Which tag a title is: the container's before its stream's, and in each the title before the
/// description before the comment; none where nothing is written in any.
pub proof fn the_best_tag_is_the_title(fmt: Tags, stream: Tags)
    requires
        fmt.artist is None,
    ensures
        says(fmt.title) ==> tagged_title(fmt, Some(stream)) == Some(trimmed(fmt.title->0@)),
        !says(fmt.title) && says(fmt.description) ==> tagged_title(fmt, Some(stream)) == Some(
            trimmed(fmt.description->0@),
        ),
        !says(fmt.title) && !says(fmt.description) && says(fmt.comment) ==> tagged_title(
            fmt,
            Some(stream),
        ) == Some(trimmed(fmt.comment->0@)),
        !says(fmt.title) && !says(fmt.description) && !says(fmt.comment) ==> tagged_title(
            fmt,
            Some(stream),
        ) == tagged_title(Tags { artist: None, ..stream }, None),
        tagged_title(fmt, None) is Some <==> says(fmt.title) || says(fmt.description) || says(
            fmt.comment,
        ),
        tagged_title(fmt, None) is Some ==> tagged_title(fmt, Some(stream)) == tagged_title(
            fmt,
            None,
        ),
{
}

/// A music file's artist stands before its title, unless the title names the artist already; it does
/// not make a title where there is none.
pub proof fn the_artist_stands_before_the_title(fmt: Tags, stream: Option<Tags>)
    ensures
        ({
            let bare = tagged_title(Tags { artist: None, ..fmt }, stream);
            let full = tagged_title(fmt, stream);
            &&& bare is None ==> full is None
            &&& bare is Some && says(fmt.artist) && !has_text(
                lowercase(bare->0),
                lowercase(trimmed(fmt.artist->0@)),
            ) ==> full == Some(trimmed(fmt.artist->0@) + " - "@ + bare->0)
            &&& bare is Some && (!says(fmt.artist) || has_text(
                lowercase(bare->0),
                lowercase(trimmed(fmt.artist->0@)),
            )) ==> full == bare
        }),
{
}

/// A file that could be probed is used if it is longer than half a second, and one by one: what comes
/// of two lists is what comes of the first and then what comes of the second.
pub proof fn long_files_are_used(a: Seq<Option<FileInfo>>, b: Seq<Option<FileInfo>>, f: FileInfo)
    ensures
        usable_files(a + b) == usable_files(a) + usable_files(b),
        f.duration > 500_000 ==> usable_files(seq![Some(f)]) == seq![f],
        f.duration <= 500_000 ==> usable_files(seq![Some(f)]).len() == 0,
        usable_files(seq![None]).len() == 0,
    decreases b.len(),
{
    reveal_with_fuel(usable_files, 2);
    assert(seq![Some(f)].drop_last() =~= Seq::empty());
    assert(seq![None::<FileInfo>].drop_last() =~= Seq::empty());
    assert(usable_files(Seq::<Option<FileInfo>>::empty()) =~= Seq::empty());
    assert(f.duration > 500_000 ==> usable_files(seq![Some(f)]) =~= seq![f]);
    if b.len() > 0 {
        long_files_are_used(a, b.drop_last(), f);
        assert((a + b).drop_last() =~= a + b.drop_last());
        assert((a + b).last() == b.last());
        assert(usable_files(a + b) =~= usable_files(a) + usable_files(b));
    } else {
        assert(a + b =~= a);
        assert(usable_files(a) + usable_files(b) =~= usable_files(a));
    }
}

/// A stream lasts as many microseconds as its ticks do, and one without a count of its own as long
/// as the container says.
pub proof fn streams_last_as_long_as_their_ticks(ticks: int, num: int, den: int, container: int)
    ensures
        ticks > 0 && num > 0 && den > 0 ==> {
            let d = duration_of(ticks, num, den, container);
            d * den <= ticks * num * 1_000_000 < (d + 1) * den
        },
        !(ticks > 0 && num > 0 && den > 0) && container > 0 ==> duration_of(
            ticks,
            num,
            den,
            container,
        ) == container,
        !(ticks > 0 && num > 0 && den > 0) && container <= 0 ==> duration_of(
            ticks,
            num,
            den,
            container,
        ) == 0,
{
    if den > 0 {
        let x = ticks * num * 1_000_000;
        vstd::arithmetic::div_mod::lemma_fundamental_div_mod(x, den);
        vstd::arithmetic::div_mod::lemma_mod_bound(x, den);
        let q = x / den;
        assert(q * den <= x < (q + 1) * den) by (nonlinear_arith)
            requires
                x == den * q + x % den,
                0 <= x % den < den,
        ;
    }
}

/// A name without a bracket behind a space is kept but for the white space around it, and of one
/// with such a bracket what stands before the first of them is.
pub proof fn cleaning_cuts_at_the_bracket(a: Seq<char>, x: Seq<char>)
    requires
        !has_text(a, " ("@),
        a.len() > 0 ==> a.last() != ' ',
    ensures
        cleaned(a) == trimmed(a),
        cleaned(a + " ("@ + x) == trimmed(a),
{
    reveal_strlit(" (");
    let s = a + " ("@ + x;
    let n = a.len() as int;
    assert(s.subrange(n, n + 2) =~= " ("@);
    assert(occurs_at(s, " ("@, n));
    assert forall|j: int| 0 <= j < n implies !occurs_at(s, " ("@, j) by {
        if occurs_at(s, " ("@, j) {
            assert(s.subrange(j, j + 2)[0] == s[j]);
            if j + 2 <= n {
                assert(a.subrange(j, j + 2) =~= s.subrange(j, j + 2));
                assert(occurs_at(a, " ("@, j));
            } else {
                assert(a.last() == s[j]);
            }
        }
    }
    assert(is_first(s, " ("@, n));
    let k = choose|k: int| is_first(s, " ("@, k);
    assert(k == n);
    assert(s.take(n) =~= a);
}

/// Which files are videos, and which are hold music, does not depend on the case of the letters in
/// their extensions. No extension has fewer than three letters or more than four.
pub proof fn extensions_go_by_their_letters(a: Seq<char>, b: Seq<char>)
    requires
        same_ignoring_case(a, b),
    ensures
        video_extension(a) <==> video_extension(b),
        music_extension(a) <==> music_extension(b),
        video_extension(a) || music_extension(a) ==> 3 <= a.len() <= 4,
{
    reveal_strlit("mp4");
    reveal_strlit("m4v");
    reveal_strlit("mov");
    reveal_strlit("mkv");
    reveal_strlit("webm");
    reveal_strlit("avi");
    reveal_strlit("mpg");
    reveal_strlit("mpeg");
    reveal_strlit("wmv");
    reveal_strlit("mp3");
    reveal_strlit("m4a");
    reveal_strlit("ogg");
    reveal_strlit("flac");
    reveal_strlit("wav");
    lemma_alike(a, b, "mp4"@);
    lemma_alike(a, b, "m4v"@);
    lemma_alike(a, b, "mov"@);
    lemma_alike(a, b, "mkv"@);
    lemma_alike(a, b, "webm"@);
    lemma_alike(a, b, "avi"@);
    lemma_alike(a, b, "mpg"@);
    lemma_alike(a, b, "mpeg"@);
    lemma_alike(a, b, "wmv"@);
    lemma_alike(a, b, "mp3"@);
    lemma_alike(a, b, "m4a"@);
    lemma_alike(a, b, "ogg"@);
    lemma_alike(a, b, "flac"@);
    lemma_alike(a, b, "wav"@);
}

proof fn lemma_alike(a: Seq<char>, b: Seq<char>, c: Seq<char>)
    requires
        same_ignoring_case(a, b),
    ensures
        same_ignoring_case(a, c) <==> same_ignoring_case(b, c),
        same_ignoring_case(a, c) ==> a.len() == c.len(),
{
    likeness_is_about_letters(a, b, c, 'a', 'a');
    likeness_is_about_letters(b, a, c, 'a', 'a');
}

} // verus!
