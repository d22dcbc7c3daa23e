//! Paths as texts: when two of them are the same, and the names that they end in. What a path is
//! made of differs from system to system; what is said here holds on every one.

use vstd::prelude::*;
use crate::text::{chars_of, pieces, same_ignoring_case, string_range};

verus! {

// ---------------------------------------------------------------- the same path

/// The characters that can separate the names in a path: on some systems only the first does.
pub open spec fn is_separator(c: char) -> bool {
    c == '/' || c == '\\'
}

/// A text with one kind of separator.
pub open spec fn slashed(s: Seq<char>) -> Seq<char> {
    s.map_values(
        |c: char|
            if is_separator(c) {
                '/'
            } else {
                c
            },
    )
}

/// The pieces that are names: not empty, and not a single dot.
pub open spec fn names(parts: Seq<Seq<char>>) -> Seq<Seq<char>>
    decreases parts.len(),
{
    if parts.len() == 0 {
        parts
    } else {
        let rest = names(parts.drop_last());
        if parts.last().len() > 0 && parts.last() != seq!['.'] {
            rest.push(parts.last())
        } else {
            rest
        }
    }
}

/// The names between the separators of a path.
pub open spec fn path_names(s: Seq<char>) -> Seq<Seq<char>> {
    names(pieces(slashed(s), '/'))
}

/// The path begins with a separator.
pub open spec fn is_rooted(s: Seq<char>) -> bool {
    s.len() > 0 && is_separator(s[0])
}

/// The path begins with a name that is a single dot.
pub open spec fn is_dotted(s: Seq<char>) -> bool {
    s.len() > 0 && s[0] == '.' && (s.len() == 1 || is_separator(s[1]))
}

/// The path begins with two separators.
pub open spec fn is_doubled(s: Seq<char>) -> bool {
    s.len() >= 2 && is_separator(s[0]) && is_separator(s[1])
}

/// A path that is read alike on every system: written with '/', without a drive or a host.
pub open spec fn is_simple(s: Seq<char>) -> bool {
    !is_doubled(s) && forall|i: int| 0 <= i < s.len() ==> #[trigger] s[i] != '\\' && s[i] != ':'
}

/// Both paths have the same names and begin alike.
pub open spec fn same_place(a: Seq<char>, b: Seq<char>) -> bool {
    path_names(a) == path_names(b) && is_rooted(a) == is_rooted(b) && is_dotted(a) == is_dotted(b)
}

/// Both paths have as many names, and they differ in the case of ASCII letters at most: that of a
/// drive.
pub open spec fn alike(a: Seq<char>, b: Seq<char>) -> bool {
    let (x, y) = (path_names(a), path_names(b));
    &&& is_rooted(a) == is_rooted(b)
    &&& x.len() == y.len()
    &&& forall|i: int| 0 <= i < x.len() ==> same_ignoring_case(#[trigger] x[i], y[i])
}

/// The two are the same path on some system.
pub open spec fn may_be_same(a: Seq<char>, b: Seq<char>) -> bool {
    alike(a, b) && (is_simple(a) && is_simple(b) ==> same_place(a, b))
}

/// The two are the same path on every system.
pub open spec fn must_be_same(a: Seq<char>, b: Seq<char>) -> bool {
    a == b || (is_simple(a) && is_simple(b) && same_place(a, b))
}

/// `==` on `std::path::Path`: two texts are the same path when their components are. Separators in
/// a row, a single dot that is not in front, and a separator behind are no components, and a drive
/// is the same in either case. Which texts hold a drive or a host, and whether '\\' separates,
/// depends on the system: of those paths it is only said what the same ones have in common.
#[verifier::external_body]
pub(crate) fn same_path(a: &str, b: &str) -> (r: bool)
    ensures
        r ==> may_be_same(a@, b@),
        must_be_same(a@, b@) ==> r,
{
    std::path::Path::new(a) == std::path::Path::new(b)
}

// ---------------------------------------------------------------- the last name

/// A name on every system: no separator in it, nor a drive, and no dot behind.
pub open spec fn is_plain(n: Seq<char>) -> bool {
    n.len() > 0 && n.last() != '.' && forall|i: int|
        0 <= i < n.len() ==> !is_separator(#[trigger] n[i]) && n[i] != ':'
}

/// The path ends in the plain name `n`, behind a '/' where there is more.
pub open spec fn ends_in(p: Seq<char>, n: Seq<char>) -> bool {
    &&& is_plain(n)
    &&& !is_doubled(p)
    &&& n.len() <= p.len()
    &&& p.skip(p.len() - n.len()) == n
    &&& n.len() < p.len() ==> p[p.len() - n.len() - 1] == '/'
}

/// What stands in front of the last name `n` and the '/' before it.
pub open spec fn before(p: Seq<char>, n: Seq<char>) -> Seq<char> {
    p.take(p.len() - n.len() - 1)
}

/// `n` stands in `p` at `i`, with nothing but separators and dots behind it.
pub open spec fn stands_last(p: Seq<char>, n: Seq<char>, i: int) -> bool {
    let end = i + n.len();
    &&& 0 <= i
    &&& end <= p.len()
    &&& p.subrange(i, end) == n
    &&& i > 0 ==> is_separator(p[i - 1]) || p[i - 1] == ':'
    &&& end < p.len() ==> is_separator(p[end])
    &&& forall|j: int| end <= j < p.len() ==> is_separator(#[trigger] p[j]) || p[j] == '.'
}

/// `n` is the last part of `p`.
pub open spec fn is_last_part(p: Seq<char>, n: Seq<char>) -> bool {
    n.len() > 0 && exists|i: int| #[trigger] stands_last(p, n, i)
}

/// `Path::file_name`: the last component, if it is a name. Which one that is depends on the system
/// where a path holds a '\\', a drive or a host.
#[verifier::external_body]
fn file_name(p: &str) -> (r: Option<String>)
    ensures
        r matches Some(n) ==> is_last_part(p@, n@),
        forall|n: Seq<char>| #[trigger] ends_in(p@, n) ==> r is Some && r->0@ == n,
{
    std::path::Path::new(p).file_name().map(|n| n.to_string_lossy().into_owned())
}

/// `Path::parent`: the path without its last component, a beginning of it. Which component that is
/// depends on the system where a path holds a '\\', a drive or a host.
#[verifier::external_body]
fn parent(p: &str) -> (r: Option<String>)
    ensures
        r matches Some(d) ==> d@.len() < p@.len() && p@.take(d@.len() as int) == d@,
        forall|n: Seq<char>, m: Seq<char>|
            ends_in(p@, n) && n.len() < p@.len() && #[trigger] ends_in(before(p@, n), m) ==> r is Some
                && r->0@ == before(p@, n),
{
    std::path::Path::new(p).parent().map(|d| d.to_string_lossy().into_owned())
}

// ---------------------------------------------------------------- stems and folders

/// `k` is the place of the last dot in `n`.
pub open spec fn last_dot(n: Seq<char>, k: int) -> bool {
    0 <= k < n.len() && n[k] == '.' && forall|j: int| k < j < n.len() ==> #[trigger] n[j] != '.'
}

/// A file's name without its extension: what stands before the last dot, or all of it where there
/// is none or it is the first character.
pub open spec fn is_stem(n: Seq<char>, stem: Seq<char>) -> bool {
    if exists|k: int| #[trigger] last_dot(n, k) && k > 0 {
        exists|k: int| #[trigger] last_dot(n, k) && stem == n.take(k)
    } else {
        stem == n
    }
}

/// A file's name without its extension.
pub fn stem_of(name: &str) -> (r: String)
    ensures
        is_stem(name@, r@),
{
    let v = chars_of(name);
    let mut i: usize = v.len();
    while i > 0
        invariant
            i <= v@.len(),
            v@ == name@,
            forall|j: int| i <= j < v@.len() ==> #[trigger] v@[j] != '.',
        decreases i,
    {
        i -= 1;
        if v[i] == '.' {
            assert(last_dot(name@, i as int));
            if i > 0 {
                assert(v@.subrange(0, i as int) =~= name@.take(i as int));
                return string_range(&v, 0, i);
            }
            assert(v@.subrange(0, v@.len() as int) =~= name@);
            return string_range(&v, 0, v.len());
        }
    }
    assert(v@.subrange(0, v@.len() as int) =~= name@);
    string_range(&v, 0, v.len())
}

/// The stem of the file at a path: that of the path's last name, or nothing where it has none.
pub open spec fn is_stem_at(p: Seq<char>, stem: Seq<char>) -> bool {
    &&& stem.len() == 0 || exists|n: Seq<char>| #[trigger] is_last_part(p, n) && is_stem(n, stem)
    &&& forall|n: Seq<char>| #[trigger] ends_in(p, n) ==> is_stem(n, stem)
}

/// The stem of the file at `p`.
pub fn stem_at(p: &str) -> (r: String)
    ensures
        is_stem_at(p@, r@),
{
    match file_name(p) {
        Some(n) => stem_of(n.as_str()),
        None => String::new(),
    }
}

/// The folder of the file at a path: the last name of what stands in front of the file's own.
pub open spec fn is_folder_at(p: Seq<char>, folder: Option<Seq<char>>) -> bool {
    &&& folder matches Some(f) ==> exists|k: int|
        0 <= k < p.len() && is_last_part(#[trigger] p.take(k), f)
    &&& forall|n: Seq<char>, f: Seq<char>|
        ends_in(p, n) && n.len() < p.len() && #[trigger] ends_in(before(p, n), f) ==> folder == Some(
            f,
        )
}

/// The name of the folder that holds the file at `p`, where the path has one.
pub fn folder_at(p: &str) -> (r: Option<String>)
    ensures
        is_folder_at(
            p@,
            match r {
                Some(s) => Some(s@),
                None => None,
            },
        ),
{
    match parent(p) {
        Some(d) => file_name(d.as_str()),
        None => None,
    }
}

// ---------------------------------------------------------------- what paths are made of

/// A name and an extension behind a dot: the stem is the name. A name without a dot is its own.
pub proof fn a_stem_has_an_extension_behind_it(
    stem: Seq<char>,
    ext: Seq<char>,
    r: Seq<char>,
    s: Seq<char>,
)
    requires
        stem.len() > 0,
        !ext.contains('.'),
        is_stem(stem.push('.') + ext, r),
        is_stem(ext, s),
    ensures
        r == stem,
        s == ext,
{
    let n = stem.push('.') + ext;
    let at = stem.len() as int;
    assert(last_dot(n, at)) by {
        assert(n[at] == '.');
        assert forall|j: int| at < j < n.len() implies #[trigger] n[j] != '.' by {
            assert(ext[j - at - 1] == n[j]);
        }
    }
    let k = choose|k: int| #[trigger] last_dot(n, k) && r == n.take(k);
    if k < at {
        assert(n[at] != '.');
    } else if k > at {
        assert(n[k] != '.');
    }
    assert(n.take(at) =~= stem);
    if exists|k: int| #[trigger] last_dot(ext, k) && k > 0 {
        let k = choose|k: int| #[trigger] last_dot(ext, k) && k > 0;
        assert(ext[k] == '.');
    }
}

/// A path of names with slashes between them, on every system: the file at it has the stem of its
/// last name, and its folder is the name before that.
pub proof fn a_file_is_in_its_folder(
    dir: Seq<char>,
    folder: Seq<char>,
    stem: Seq<char>,
    ext: Seq<char>,
    r: Seq<char>,
    f: Option<Seq<char>>,
)
    requires
        is_plain(folder),
        stem.len() > 0,
        !ext.contains('.'),
        is_plain(stem.push('.') + ext),
        !is_doubled(dir.push('/')),
        ({
            let p = dir.push('/') + folder.push('/') + (stem.push('.') + ext);
            is_stem_at(p, r) && is_folder_at(p, f)
        }),
    ensures
        r == stem,
        f == Some(folder),
{
    let n = stem.push('.') + ext;
    let p = dir.push('/') + folder.push('/') + n;
    assert(!is_separator(folder[0]));
    assert(p.skip(p.len() - n.len()) =~= n);
    assert(p[p.len() - n.len() - 1] == '/');
    assert(!is_doubled(p)) by {
        if dir.len() > 0 {
            assert(p[0] == dir.push('/')[0] && p[1] == dir.push('/')[1]);
        } else {
            assert(p[1] == folder[0]);
        }
    }
    assert(ends_in(p, n));
    let q = before(p, n);
    assert(q =~= dir.push('/') + folder);
    assert(q.skip(q.len() - folder.len()) =~= folder);
    assert(!is_doubled(q)) by {
        if q.len() >= 2 {
            assert(q[0] == p[0] && q[1] == p[1]);
        }
    }
    assert(ends_in(q, folder));
    assert(is_stem(n, r));
    let s = ext;
    assert(is_stem(ext, ext)) by {
        if exists|k: int| #[trigger] last_dot(ext, k) && k > 0 {
            let k = choose|k: int| #[trigger] last_dot(ext, k) && k > 0;
            assert(ext[k] == '.');
        }
    }
    a_stem_has_an_extension_behind_it(stem, ext, r, s);
}

} // verus!
