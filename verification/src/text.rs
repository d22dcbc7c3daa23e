//! Characters and strings: trimming, searching, decimal numbers, and the case mappings.

use vstd::prelude::*;
use vstd::utf8::encode_utf8;

verus! {

// ---------------------------------------------------------------- what std does

/// `String::push` appends one character at the end.
pub assume_specification[ String::push ](s: &mut String, c: char)
    ensures
        final(s)@ == old(s)@.push(c),
;

/// `String::pop` takes the last character off, if there is one.
pub assume_specification[ String::pop ](s: &mut String) -> (r: Option<char>)
    ensures
        old(s)@.len() == 0 ==> r is None && final(s)@ == old(s)@,
        old(s)@.len() > 0 ==> r == Some(old(s)@.last()) && final(s)@ == old(s)@.drop_last(),
;

/// The lowercase equivalent of a text, by the Unicode property `Lowercase`.
pub uninterp spec fn lowercase(s: Seq<char>) -> Seq<char>;

/// The uppercase equivalent of a text, by the Unicode property `Uppercase`.
pub uninterp spec fn uppercase(s: Seq<char>) -> Seq<char>;

/// `str::to_lowercase`: the lowercase equivalent of `s`, a function of `s` alone.
#[verifier::external_body]
pub(crate) fn to_lowercase(s: &str) -> (r: String)
    ensures
        r@ == lowercase(s@),
{
    s.to_lowercase()
}

/// `str::to_uppercase`: the uppercase equivalent of `s`, a function of `s` alone.
#[verifier::external_body]
pub(crate) fn to_uppercase(s: &str) -> (r: String)
    ensures
        r@ == uppercase(s@),
{
    s.to_uppercase()
}

// ---------------------------------------------------------------- characters

/// The characters of `s`, in order.
pub fn chars_of(s: &str) -> (r: Vec<char>)
    ensures
        r@ == s@,
{
    let mut v: Vec<char> = Vec::new();
    for c in it: s.chars()
        invariant
            it.seq() == s@,
            v@ == it.seq().take(it.index()),
    {
        v.push(c);
    }
    v
}

/// The text made of `v[a..b]`.
pub fn string_range(v: &Vec<char>, a: usize, b: usize) -> (r: String)
    requires
        a <= b <= v@.len(),
    ensures
        r@ == v@.subrange(a as int, b as int),
{
    let mut s = String::new();
    let mut i: usize = a;
    while i < b
        invariant
            a <= i <= b <= v@.len(),
            s@ == v@.subrange(a as int, i as int),
        decreases b - i,
    {
        s.push(v[i]);
        i += 1;
    }
    s
}

/// Whether two texts are the same.
pub fn same_text(a: &str, b: &str) -> (r: bool)
    ensures
        r == (a@ == b@),
{
    let x = chars_of(a);
    let y = chars_of(b);
    same_chars(&x, &y)
}

pub fn same_chars(x: &Vec<char>, y: &Vec<char>) -> (r: bool)
    ensures
        r == (x@ == y@),
{
    if x.len() != y.len() {
        return false;
    }
    let mut i: usize = 0;
    while i < x.len()
        invariant
            i <= x@.len() == y@.len(),
            forall|j: int| 0 <= j < i ==> x@[j] == y@[j],
        decreases x@.len() - i,
    {
        if x[i] != y[i] {
            return false;
        }
        i += 1;
    }
    assert(x@ =~= y@);
    true
}

/// The characters with the Unicode property `White_Space`.
pub open spec fn is_space(c: char) -> bool {
    ||| '\u{9}' <= c <= '\u{d}'
    ||| c == ' '
    ||| c == '\u{85}'
    ||| c == '\u{a0}'
    ||| c == '\u{1680}'
    ||| '\u{2000}' <= c <= '\u{200a}'
    ||| c == '\u{2028}'
    ||| c == '\u{2029}'
    ||| c == '\u{202f}'
    ||| c == '\u{205f}'
    ||| c == '\u{3000}'
}

pub fn space(c: char) -> (r: bool)
    ensures
        r == is_space(c),
{
    ('\u{9}' <= c && c <= '\u{d}') || c == ' ' || c == '\u{85}' || c == '\u{a0}' || c == '\u{1680}'
        || ('\u{2000}' <= c && c <= '\u{200a}') || c == '\u{2028}' || c == '\u{2029}'
        || c == '\u{202f}' || c == '\u{205f}' || c == '\u{3000}'
}

/// `s` without the white space in front.
pub open spec fn trim_start(s: Seq<char>) -> Seq<char>
    decreases s.len(),
{
    if s.len() > 0 && is_space(s[0]) {
        trim_start(s.drop_first())
    } else {
        s
    }
}

/// `s` without the white space behind.
pub open spec fn trim_end(s: Seq<char>) -> Seq<char>
    decreases s.len(),
{
    if s.len() > 0 && is_space(s.last()) {
        trim_end(s.drop_last())
    } else {
        s
    }
}

/// `s` without the white space at either end.
pub open spec fn trimmed(s: Seq<char>) -> Seq<char> {
    trim_end(trim_start(s))
}

/// `s` without the white space at either end.
pub fn trim(s: &str) -> (r: String)
    ensures
        r@ == trimmed(s@),
{
    let v = chars_of(s);
    let mut a: usize = 0;
    proof {
        assert(v@.subrange(0, v@.len() as int) =~= v@);
    }
    while a < v.len() && space(v[a])
        invariant
            a <= v@.len(),
            v@ == s@,
            trim_start(s@) == trim_start(v@.subrange(a as int, v@.len() as int)),
        decreases v@.len() - a,
    {
        proof {
            let t = v@.subrange(a as int, v@.len() as int);
            assert(t.drop_first() =~= v@.subrange(a + 1, v@.len() as int));
        }
        a += 1;
    }
    let mut b: usize = v.len();
    let ghost front = v@.subrange(a as int, v@.len() as int);
    assert(trim_start(s@) == front);
    while a < b && space(v[b - 1])
        invariant
            a <= b <= v@.len(),
            trim_end(front) == trim_end(v@.subrange(a as int, b as int)),
        decreases b - a,
    {
        proof {
            let t = v@.subrange(a as int, b as int);
            assert(t.last() == v@[b - 1]);
            assert(t.drop_last() =~= v@.subrange(a as int, b - 1));
        }
        b -= 1;
    }
    proof {
        let t = v@.subrange(a as int, b as int);
        if t.len() > 0 {
            assert(t.last() == v@[b - 1]);
        }
    }
    string_range(&v, a, b)
}

proof fn lemma_trim_start(s: Seq<char>) -> (a: int)
    ensures
        0 <= a <= s.len(),
        trim_start(s) == s.skip(a),
        trim_start(s).len() > 0 ==> !is_space(trim_start(s)[0]),
    decreases s.len(),
{
    if s.len() > 0 && is_space(s[0]) {
        let a = lemma_trim_start(s.drop_first());
        assert(s.drop_first().skip(a) =~= s.skip(a + 1));
        a + 1
    } else {
        assert(s.skip(0) =~= s);
        0
    }
}

proof fn lemma_trim_end(s: Seq<char>) -> (b: int)
    ensures
        0 <= b <= s.len(),
        trim_end(s) == s.take(b),
        trim_end(s).len() > 0 ==> !is_space(trim_end(s).last()),
    decreases s.len(),
{
    if s.len() > 0 && is_space(s.last()) {
        let b = lemma_trim_end(s.drop_last());
        assert(s.drop_last().take(b) =~= s.take(b));
        b
    } else {
        assert(s.take(s.len() as int) =~= s);
        s.len() as int
    }
}

/// Trimming leaves a part of the text, from some position on, that has no white space at either
/// end; trimming it again changes nothing.
pub proof fn trimming_leaves_a_part(s: Seq<char>) -> (a: int)
    ensures
        0 <= a,
        a + trimmed(s).len() <= s.len(),
        trimmed(s) == s.subrange(a, a + trimmed(s).len()),
        trimmed(s).len() > 0 ==> !is_space(trimmed(s)[0]) && !is_space(trimmed(s).last()),
        trimmed(trimmed(s)) == trimmed(s),
{
    let a = lemma_trim_start(s);
    let b = lemma_trim_end(trim_start(s));
    assert(s.skip(a).take(b) =~= s.subrange(a, a + b));
    a
}

/// The ASCII lowercase of one character; every other character is itself.
pub open spec fn ascii_lower(c: char) -> char {
    if 'A' <= c <= 'Z' {
        ((c as u32 + 32) as u32) as char
    } else {
        c
    }
}

pub fn ascii_lower_char(c: char) -> (r: char)
    ensures
        r == ascii_lower(c),
{
    if 'A' <= c && c <= 'Z' {
        ((c as u8) + 32) as char
    } else {
        c
    }
}

/// Equality of texts up to the case of ASCII letters.
pub open spec fn same_ignoring_case(a: Seq<char>, b: Seq<char>) -> bool {
    &&& a.len() == b.len()
    &&& forall|i: int| 0 <= i < a.len() ==> ascii_lower(#[trigger] a[i]) == ascii_lower(b[i])
}

pub fn eq_ignore_ascii_case(a: &str, b: &str) -> (r: bool)
    ensures
        r == same_ignoring_case(a@, b@),
{
    let x = chars_of(a);
    let y = chars_of(b);
    if x.len() != y.len() {
        return false;
    }
    let mut i: usize = 0;
    while i < x.len()
        invariant
            i <= x@.len() == y@.len(),
            x@ == a@,
            y@ == b@,
            forall|j: int| 0 <= j < i ==> ascii_lower(#[trigger] x@[j]) == ascii_lower(y@[j]),
        decreases x@.len() - i,
    {
        if ascii_lower_char(x[i]) != ascii_lower_char(y[i]) {
            assert(ascii_lower(a@[i as int]) != ascii_lower(b@[i as int]));
            return false;
        }
        i += 1;
    }
    true
}

/// `needle` stands in `hay` at position `i`.
pub open spec fn occurs_at(hay: Seq<char>, needle: Seq<char>, i: int) -> bool {
    0 <= i && i + needle.len() <= hay.len() && hay.subrange(i, i + needle.len()) == needle
}

pub open spec fn has_text(hay: Seq<char>, needle: Seq<char>) -> bool {
    exists|i: int| occurs_at(hay, needle, i)
}

/// The first position of `needle` in `hay`.
pub fn find(hay: &Vec<char>, needle: &Vec<char>) -> (r: Option<usize>)
    ensures
        r matches Some(i) ==> occurs_at(hay@, needle@, i as int) && (forall|j: int|
            0 <= j < i ==> !occurs_at(hay@, needle@, j)),
        r is None ==> !has_text(hay@, needle@),
{
    if needle.len() > hay.len() {
        return None;
    }
    let last: usize = hay.len() - needle.len();
    let mut i: usize = 0;
    loop
        invariant
            i <= last == hay@.len() - needle@.len(),
            hay@.len() <= usize::MAX,
            forall|j: int| 0 <= j < i ==> !occurs_at(hay@, needle@, j),
        decreases last - i,
    {
        let mut k: usize = 0;
        while k < needle.len() && hay[i + k] == needle[k]
            invariant
                i + needle@.len() <= hay@.len() <= usize::MAX,
                k <= needle@.len(),
                forall|j: int| 0 <= j < k ==> hay@[i + j] == needle@[j],
            decreases needle@.len() - k,
        {
            k += 1;
        }
        if k == needle.len() {
            assert(hay@.subrange(i as int, i + needle@.len()) =~= needle@);
            return Some(i);
        }
        assert(!occurs_at(hay@, needle@, i as int)) by {
            if occurs_at(hay@, needle@, i as int) {
                assert(hay@.subrange(i as int, i + needle@.len())[k as int] == needle@[k as int]);
            }
        }
        if i == last {
            return None;
        }
        i += 1;
    }
}

/// Whether `needle` stands anywhere in `hay`.
pub fn contains(hay: &str, needle: &str) -> (r: bool)
    ensures
        r == has_text(hay@, needle@),
{
    let h = chars_of(hay);
    let n = chars_of(needle);
    find(&h, &n).is_some()
}

/// Whether `hay` begins with `prefix`.
pub fn starts_with(hay: &str, prefix: &str) -> (r: bool)
    ensures
        r == occurs_at(hay@, prefix@, 0),
{
    let h = chars_of(hay);
    let p = chars_of(prefix);
    if p.len() > h.len() {
        return false;
    }
    let mut k: usize = 0;
    while k < p.len()
        invariant
            k <= p@.len() <= h@.len(),
            h@ == hay@,
            p@ == prefix@,
            forall|j: int| 0 <= j < k ==> h@[j] == p@[j],
        decreases p@.len() - k,
    {
        if h[k] != p[k] {
            assert(hay@.subrange(0, prefix@.len() as int)[k as int] != prefix@[k as int]);
            return false;
        }
        k += 1;
    }
    assert(hay@.subrange(0, prefix@.len() as int) =~= prefix@);
    true
}

// ---------------------------------------------------------------- decimal numbers

pub open spec fn digit_char(d: int) -> char {
    ((48 + d) as u32) as char
}

/// The decimal digits of `n`, most significant first; "0" for zero.
pub open spec fn decimal(n: nat) -> Seq<char>
    decreases n,
{
    if n < 10 {
        seq![digit_char(n as int)]
    } else {
        decimal(n / 10).push(digit_char((n % 10) as int))
    }
}

/// `s` filled up with zeros in front to at least `width` characters.
pub open spec fn zero_padded(s: Seq<char>, width: nat) -> Seq<char>
    decreases width - s.len(),
{
    if s.len() >= width {
        s
    } else {
        zero_padded(seq!['0'] + s, width)
    }
}

/// `n` in decimal, at least `width` digits long.
pub open spec fn decimal_padded(n: nat, width: nat) -> Seq<char> {
    zero_padded(decimal(n), width)
}

fn digit(d: u64) -> (r: char)
    requires
        d < 10,
    ensures
        r == digit_char(d as int),
{
    (48u8 + d as u8) as char
}

/// `n` in decimal.
pub fn decimal_chars(n: u64) -> (r: Vec<char>)
    ensures
        r@ == decimal(n as nat),
    decreases n,
{
    if n < 10 {
        let mut v: Vec<char> = Vec::new();
        v.push(digit(n));
        assert(v@ =~= decimal(n as nat));
        v
    } else {
        let mut v = decimal_chars(n / 10);
        v.push(digit(n % 10));
        v
    }
}

/// `out` followed by `n` in decimal.
pub fn push_decimal(out: &mut String, n: u64)
    ensures
        final(out)@ == old(out)@ + decimal(n as nat),
{
    let v = decimal_chars(n);
    push_chars(out, &v);
}

/// `out` followed by the characters of `v`.
pub fn push_chars(out: &mut String, v: &Vec<char>)
    ensures
        final(out)@ == old(out)@ + v@,
{
    let mut i: usize = 0;
    while i < v.len()
        invariant
            i <= v@.len(),
            out@ == old(out)@ + v@.take(i as int),
        decreases v@.len() - i,
    {
        out.push(v[i]);
        i += 1;
    }
    assert(v@.take(v@.len() as int) =~= v@);
}

/// `out` followed by `n` in decimal with at least `width` digits.
pub fn push_padded(out: &mut String, n: u64, width: usize)
    ensures
        final(out)@ == old(out)@ + decimal_padded(n as nat, width as nat),
{
    let v = decimal_chars(n);
    let ghost base = out@;
    let mut k: usize = v.len();
    let mut zeros: Vec<char> = Vec::new();
    let ghost mut cur: Seq<char> = v@;
    while k < width
        invariant
            k == cur.len(),
            cur == zeros@ + v@,
            forall|j: int| 0 <= j < zeros@.len() ==> zeros@[j] == '0',
            zero_padded(cur, width as nat) == zero_padded(v@, width as nat),
        decreases width - k,
    {
        proof {
            let next = seq!['0'] + cur;
            assert(next =~= zeros@.push('0') + v@);
            cur = next;
        }
        zeros.push('0');
        k += 1;
    }
    push_chars(out, &zeros);
    push_chars(out, &v);
    assert(out@ =~= base + cur);
}

/// The number that a run of decimal digits writes.
pub open spec fn digits_value(s: Seq<char>) -> nat
    decreases s.len(),
{
    if s.len() == 0 {
        0
    } else {
        digits_value(s.drop_last()) * 10 + (s.last() as nat - 48) as nat
    }
}

pub open spec fn all_digits(s: Seq<char>) -> bool {
    forall|i: int| 0 <= i < s.len() ==> '0' <= #[trigger] s[i] <= '9'
}

/// What an unsigned integer type with the largest value `max` reads in `s`: digits, behind a plus
/// sign perhaps, that write a number of the type.
pub open spec fn parsed(s: Seq<char>, max: nat) -> Option<nat> {
    let d = if s.len() > 0 && s[0] == '+' {
        s.drop_first()
    } else {
        s
    };
    if d.len() > 0 && all_digits(d) && digits_value(d) <= max {
        Some(digits_value(d))
    } else {
        None
    }
}

proof fn lemma_value_grows(s: Seq<char>, k: int)
    requires
        0 <= k <= s.len(),
    ensures
        digits_value(s.take(k)) <= digits_value(s),
    decreases s.len() - k,
{
    if k < s.len() {
        lemma_value_grows(s, k + 1);
        assert(s.take(k + 1).drop_last() =~= s.take(k));
    } else {
        assert(s.take(k) =~= s);
    }
}

/// The unsigned number, at most `max`, that `s` writes.
pub fn parse(s: &str, max: u64) -> (r: Option<u64>)
    ensures
        r matches Some(n) ==> parsed(s@, max as nat) == Some(n as nat),
        r is None ==> parsed(s@, max as nat) is None,
{
    let v = chars_of(s);
    let from: usize = if v.len() > 0 && v[0] == '+' { 1 } else { 0 };
    let ghost d = v@.subrange(from as int, v@.len() as int);
    assert(from == 1 ==> d =~= s@.drop_first());
    assert(from == 0 ==> d =~= s@);
    if v.len() == from {
        return None;
    }
    let mut n: u64 = 0;
    let mut i: usize = from;
    assert(d.take(0) =~= Seq::<char>::empty());
    while i < v.len()
        invariant
            from <= i <= v@.len(),
            d == v@.subrange(from as int, v@.len() as int),
            parsed(s@, max as nat) == (if d.len() > 0 && all_digits(d) && digits_value(d) <= max { Some(digits_value(d)) } else { None }),
            n == digits_value(d.take(i - from)),
            n <= max,
            forall|j: int| 0 <= j < i - from ==> '0' <= #[trigger] d[j] <= '9',
        decreases v@.len() - i,
    {
        let c = v[i];
        assert(d[i - from] == c);
        if c < '0' || c > '9' {
            return None;
        }
        let k: u64 = c as u64 - 48;
        proof {
            assert(d.take(i - from + 1).drop_last() =~= d.take(i - from));
            lemma_value_grows(d, i - from + 1);
        }
        if n > max / 10 || k > max - n * 10 {
            return None;
        }
        n = n * 10 + k;
        i += 1;
    }
    assert(d.take(d.len() as int) =~= d);
    Some(n)
}

proof fn lemma_value_split(s: Seq<char>, t: Seq<char>)
    requires
        forall|i: int| 0 <= i < s.len() ==> #[trigger] s[i] == '0',
    ensures
        digits_value(s + t) == digits_value(t),
    decreases t.len(),
{
    if t.len() > 0 {
        assert((s + t).drop_last() =~= s + t.drop_last());
        lemma_value_split(s, t.drop_last());
    } else {
        assert(s + t =~= s);
        lemma_zeros(s);
    }
}

proof fn lemma_zeros(s: Seq<char>)
    requires
        forall|i: int| 0 <= i < s.len() ==> #[trigger] s[i] == '0',
    ensures
        digits_value(s) == 0,
    decreases s.len(),
{
    if s.len() > 0 {
        lemma_zeros(s.drop_last());
    }
}

/// A number in decimal reads back as the number: it is digits, it begins with no zero unless it is
/// zero, and what they say is the number.
pub proof fn decimals_read_back(n: nat)
    ensures
        decimal(n).len() > 0,
        all_digits(decimal(n)),
        digits_value(decimal(n)) == n,
        n > 0 ==> decimal(n)[0] != '0',
        forall|max: nat| n <= max ==> #[trigger] parsed(decimal(n), max) == Some(n),
    decreases n,
{
    let d = digit_char((n % 10) as int);
    assert(d as nat == 48 + n % 10);
    if n >= 10 {
        decimals_read_back(n / 10);
        assert(decimal(n) == decimal(n / 10).push(d));
        assert(decimal(n).drop_last() =~= decimal(n / 10));
        assert forall|i: int| 0 <= i < decimal(n).len() implies '0' <= #[trigger] decimal(n)[i]
            <= '9' by {
            if i < decimal(n / 10).len() {
                assert('0' <= decimal(n / 10)[i] <= '9');
            }
        }
    } else {
        reveal_with_fuel(digits_value, 2);
        assert(decimal(n) =~= seq![d]);
        assert(decimal(n).drop_last() =~= Seq::empty());
    }
    assert('0' <= decimal(n)[0] <= '9');
}

proof fn lemma_padded(s: Seq<char>, width: nat) -> (zeros: Seq<char>)
    ensures
        zero_padded(s, width) == zeros + s,
        forall|i: int| 0 <= i < zeros.len() ==> #[trigger] zeros[i] == '0',
        zero_padded(s, width).len() == (if s.len() < width {
            width
        } else {
            s.len()
        }),
    decreases
            width - (if s.len() < width {
                s.len()
            } else {
                width
            }),
{
    if s.len() >= width {
        assert(Seq::<char>::empty() + s =~= s);
        Seq::empty()
    } else {
        let t = seq!['0'] + s;
        let z = lemma_padded(t, width);
        assert(z + t =~= z.push('0') + s);
        z.push('0')
    }
}

/// Zeros in front fill a number up to its width and do not change what it says.
pub proof fn padded_decimals_read_back(n: nat, width: nat)
    ensures
        all_digits(decimal_padded(n, width)),
        digits_value(decimal_padded(n, width)) == n,
        decimal_padded(n, width).len() == (if decimal(n).len() < width {
            width
        } else {
            decimal(n).len()
        }),
        decimal(n).len() >= width ==> decimal_padded(n, width) == decimal(n),
{
    decimals_read_back(n);
    let z = lemma_padded(decimal(n), width);
    lemma_value_split(z, decimal(n));
    let t = decimal_padded(n, width);
    assert forall|i: int| 0 <= i < t.len() implies '0' <= #[trigger] t[i] <= '9' by {
        if i < z.len() {
            assert(z[i] == '0');
        } else {
            assert('0' <= decimal(n)[i - z.len()] <= '9');
        }
    }
}

/// A smaller number is not longer.
pub proof fn decimals_grow(a: nat, b: nat)
    requires
        a <= b,
    ensures
        decimal(a).len() <= decimal(b).len(),
    decreases b,
{
    if b >= 10 {
        if a >= 10 {
            decimals_grow(a / 10, b / 10);
        } else {
            decimals_read_back(b / 10);
        }
    }
}

// ---------------------------------------------------------------- real numbers

pub open spec fn is_sign(c: char) -> bool {
    c == '+' || c == '-'
}

/// The end of the run of decimal digits that begins at `i`.
pub open spec fn digit_run(s: Seq<char>, i: int) -> int
    decreases s.len() - i,
{
    if 0 <= i < s.len() && '0' <= s[i] <= '9' {
        digit_run(s, i + 1)
    } else {
        i
    }
}

/// From `b` on there is nothing, or an exponent: the letter, a sign perhaps, and digits.
pub open spec fn ends_number(t: Seq<char>, b: int) -> bool {
    b == t.len() || ((t[b] == 'e' || t[b] == 'E') && {
        let c = if b + 1 < t.len() && is_sign(t[b + 1]) {
            b + 2
        } else {
            b + 1
        };
        c < t.len() && digit_run(t, c) == t.len()
    })
}

/// Digits, with a point in front, among or behind them perhaps, and an exponent perhaps.
pub open spec fn is_unsigned_real(t: Seq<char>) -> bool {
    let a = digit_run(t, 0);
    if a < t.len() && t[a] == '.' {
        let b = digit_run(t, a + 1);
        b > 1 && ends_number(t, b)
    } else {
        a > 0 && ends_number(t, a)
    }
}

/// The way a real number is written: a sign perhaps, then digits or one of three words.
pub open spec fn is_real(s: Seq<char>) -> bool {
    let t = if s.len() > 0 && is_sign(s[0]) {
        s.drop_first()
    } else {
        s
    };
    ||| is_unsigned_real(t)
    ||| same_ignoring_case(t, "inf"@)
    ||| same_ignoring_case(t, "infinity"@)
    ||| same_ignoring_case(t, "nan"@)
}

fn skip_digits(v: &Vec<char>, i: usize) -> (r: usize)
    requires
        i <= v@.len(),
    ensures
        r == digit_run(v@, i as int),
        i <= r <= v@.len(),
{
    let mut k: usize = i;
    while k < v.len() && '0' <= v[k] && v[k] <= '9'
        invariant
            i <= k <= v@.len(),
            digit_run(v@, i as int) == digit_run(v@, k as int),
        decreases v@.len() - k,
    {
        k += 1;
    }
    k
}

fn number_ends(v: &Vec<char>, b: usize) -> (r: bool)
    requires
        b <= v@.len(),
    ensures
        r == ends_number(v@, b as int),
{
    let n: usize = v.len();
    if b == n {
        return true;
    }
    if v[b] != 'e' && v[b] != 'E' {
        return false;
    }
    let signed = b + 1 < n && (v[b + 1] == '+' || v[b + 1] == '-');
    let c: usize = if signed { b + 2 } else { b + 1 };
    c < n && skip_digits(v, c) == n
}

/// Whether `s` is written the way a real number is.
pub fn reads_as_real(s: &str) -> (r: bool)
    ensures
        r == is_real(s@),
{
    let all = chars_of(s);
    let n: usize = all.len();
    let from: usize = if n > 0 && (all[0] == '+' || all[0] == '-') { 1 } else { 0 };
    let t = string_range(&all, from, n);
    let v = chars_of(t.as_str());
    proof {
        assert(s@.subrange(0, n as int) =~= s@);
        assert(from == 1 ==> s@.subrange(1, n as int) =~= s@.drop_first());
    }
    if eq_ignore_ascii_case(t.as_str(), "inf") || eq_ignore_ascii_case(t.as_str(), "infinity")
        || eq_ignore_ascii_case(t.as_str(), "nan") {
        return true;
    }
    let a = skip_digits(&v, 0);
    if a < v.len() && v[a] == '.' {
        let b = skip_digits(&v, a + 1);
        b > 1 && number_ends(&v, b)
    } else {
        a > 0 && number_ends(&v, a)
    }
}

// ---------------------------------------------------------------- splitting and joining

/// The pieces between the separators `c` in `s`; there is one more than there are separators.
pub open spec fn pieces(s: Seq<char>, c: char) -> Seq<Seq<char>>
    decreases s.len(),
{
    if s.len() == 0 {
        seq![Seq::empty()]
    } else {
        let p = pieces(s.drop_last(), c);
        if s.last() == c {
            p.push(Seq::empty())
        } else {
            p.update(p.len() - 1, p.last().push(s.last()))
        }
    }
}

/// Every text has at least one piece.
pub proof fn pieces_not_empty(s: Seq<char>, c: char)
    ensures
        pieces(s, c).len() >= 1,
    decreases s.len(),
{
    if s.len() > 0 {
        pieces_not_empty(s.drop_last(), c);
    }
}

/// The texts of a vector of strings.
pub open spec fn texts(v: Seq<String>) -> Seq<Seq<char>> {
    v.map_values(|s: String| s@)
}

/// The pieces between the separators `c` in `s`.
pub fn split(s: &str, c: char) -> (r: Vec<String>)
    ensures
        texts(r@) == pieces(s@, c),
        r@.len() >= 1,
{
    let v = chars_of(s);
    let mut out: Vec<String> = Vec::new();
    let mut cur = String::new();
    let mut i: usize = 0;
    assert(texts(out@).push(cur@) =~= pieces(v@.take(0), c));
    while i < v.len()
        invariant
            i <= v@.len(),
            texts(out@).push(cur@) == pieces(v@.take(i as int), c),
        decreases v@.len() - i,
    {
        let ghost t = v@.take(i + 1);
        assert(t.drop_last() =~= v@.take(i as int));
        let ghost p = texts(out@).push(cur@);
        if v[i] == c {
            let ghost before = out@;
            let ghost piece = cur@;
            out.push(cur);
            assert(texts(out@) =~= p);
            cur = String::new();
        } else {
            cur.push(v[i]);
            assert(texts(out@).push(cur@) =~= p.update(p.len() - 1, p.last().push(v@[i as int])));
        }
        i += 1;
    }
    assert(v@.take(v@.len() as int) =~= v@);
    let ghost p = texts(out@).push(cur@);
    out.push(cur);
    assert(texts(out@) =~= p);
    out
}

/// A drive and nothing behind it: "C:".
pub open spec fn is_drive(dir: Seq<char>) -> bool {
    dir.len() == 2 && dir[1] == ':' && ('a' <= dir[0] <= 'z' || 'A' <= dir[0] <= 'Z')
}

/// Whether the path `dir` can be followed by a name as it stands: it is empty or ends in a
/// separator. On Windows both slashes separate, and a drive alone takes no separator.
pub open spec fn takes_a_name(windows: bool, dir: Seq<char>) -> bool {
    dir.len() == 0 || dir.last() == '/' || (windows && (dir.last() == '\\' || is_drive(dir)))
}

/// A folder and a name in it: the system's separator is put in only where one is wanting.
pub open spec fn joined(windows: bool, dir: Seq<char>, name: Seq<char>) -> Seq<char> {
    if takes_a_name(windows, dir) {
        dir + name
    } else if windows {
        dir.push('\\') + name
    } else {
        dir.push('/') + name
    }
}

/// The path of `name` in the folder `dir`.
pub fn join(windows: bool, dir: &str, name: &str) -> (r: String)
    ensures
        r@ == joined(windows, dir@, name@),
{
    let v = chars_of(dir);
    let n: usize = v.len();
    let ready = n == 0 || v[n - 1] == '/' || (windows && (v[n - 1] == '\\' || (n == 2 && v[1] == ':'
        && (('a' <= v[0] && v[0] <= 'z') || ('A' <= v[0] && v[0] <= 'Z')))));
    let mut s = dir.to_owned();
    if !ready {
        s.push(
            if windows {
                '\\'
            } else {
                '/'
            },
        );
    }
    s.append(name);
    s
}

/// Parts of a text, trimmed, without those of which nothing is left.
pub open spec fn nonblank(parts: Seq<Seq<char>>) -> Seq<Seq<char>>
    decreases parts.len(),
{
    if parts.len() == 0 {
        Seq::empty()
    } else {
        let rest = nonblank(parts.drop_last());
        let t = trimmed(parts.last());
        if t.len() > 0 {
            rest.push(t)
        } else {
            rest
        }
    }
}

/// The parts of `s` between `c`, trimmed, without those of which nothing is left.
pub fn split_nonblank(s: &str, c: char) -> (r: Vec<String>)
    ensures
        texts(r@) == nonblank(pieces(s@, c)),
{
    let parts = split(s, c);
    let mut out: Vec<String> = Vec::new();
    let mut i: usize = 0;
    let ghost all = texts(parts@);
    assert(texts(out@) =~= nonblank(all.take(0)));
    while i < parts.len()
        invariant
            i <= parts@.len(),
            all == texts(parts@),
            texts(out@) == nonblank(all.take(i as int)),
        decreases parts@.len() - i,
    {
        let t = trim(parts[i].as_str());
        proof {
            let next = all.take(i + 1);
            assert(next.drop_last() =~= all.take(i as int));
            assert(next.last() == parts@[i as int]@);
        }
        let ghost before = out@;
        if !t.as_str().is_empty() {
            out.push(t);
            assert(texts(out@) =~= texts(before).push(t@));
        }
        i += 1;
    }
    assert(all.take(all.len() as int) =~= all);
    out
}

/// The number of bytes that `s` takes.
pub fn byte_len(s: &str) -> (r: usize)
    ensures
        r == encode_utf8(s@).len(),
{
    s.as_bytes().len()
}

// ---------------------------------------------------------------- what texts keep to

proof fn lemma_trim_start_spaces(s: Seq<char>)
    ensures
        trim_start(s).len() <= s.len(),
        trim_start(s) == s.skip(s.len() - trim_start(s).len()),
        forall|i: int| 0 <= i < s.len() - trim_start(s).len() ==> is_space(#[trigger] s[i]),
    decreases s.len(),
{
    if s.len() > 0 && is_space(s[0]) {
        let t = s.drop_first();
        lemma_trim_start_spaces(t);
        assert(t.skip(t.len() - trim_start(s).len()) =~= s.skip(s.len() - trim_start(s).len()));
        assert forall|i: int| 0 <= i < s.len() - trim_start(s).len() implies is_space(
            #[trigger] s[i],
        ) by {
            if i > 0 {
                assert(is_space(t[i - 1]));
            }
        }
    } else {
        assert(s.skip(0) =~= s);
    }
}

proof fn lemma_trim_end_spaces(s: Seq<char>)
    ensures
        trim_end(s).len() <= s.len(),
        trim_end(s) == s.take(trim_end(s).len() as int),
        forall|i: int| trim_end(s).len() <= i < s.len() ==> is_space(#[trigger] s[i]),
    decreases s.len(),
{
    if s.len() > 0 && is_space(s.last()) {
        let t = s.drop_last();
        lemma_trim_end_spaces(t);
        assert(t.take(trim_end(s).len() as int) =~= s.take(trim_end(s).len() as int));
        assert forall|i: int| trim_end(s).len() <= i < s.len() implies is_space(
            #[trigger] s[i],
        ) by {
            if i < t.len() {
                assert(is_space(t[i]));
            }
        }
    } else {
        assert(s.take(s.len() as int) =~= s);
    }
}

/// Trimming takes away white space and nothing else: before what is left of the text, and behind
/// it, there was nothing but that.
pub proof fn only_white_space_is_trimmed(s: Seq<char>) -> (a: int)
    ensures
        0 <= a,
        a + trimmed(s).len() <= s.len(),
        trimmed(s) == s.subrange(a, a + trimmed(s).len()),
        forall|i: int|
            0 <= i < a || a + trimmed(s).len() <= i < s.len() ==> is_space(#[trigger] s[i]),
{
    let t = trim_start(s);
    lemma_trim_start_spaces(s);
    lemma_trim_end_spaces(t);
    let a = s.len() - t.len();
    assert(trimmed(s) =~= s.subrange(a, a + trimmed(s).len()));
    assert forall|i: int| 0 <= i < a || a + trimmed(s).len() <= i < s.len() implies is_space(
        #[trigger] s[i],
    ) by {
        if i >= a {
            assert(t[i - a] == s[i]);
        }
    }
    a
}

/// The parts one behind the other, with `c` between each two.
pub open spec fn put_together(parts: Seq<Seq<char>>, c: char) -> Seq<char>
    decreases parts.len(),
{
    if parts.len() == 0 {
        Seq::empty()
    } else if parts.len() == 1 {
        parts[0]
    } else {
        put_together(parts.drop_last(), c).push(c) + parts.last()
    }
}

/// A text is its pieces with the separator between them, and no piece has a separator in it.
pub proof fn pieces_lie_between_separators(s: Seq<char>, c: char)
    ensures
        put_together(pieces(s, c), c) == s,
        forall|i: int| 0 <= i < pieces(s, c).len() ==> !(#[trigger] pieces(s, c)[i]).contains(c),
        pieces(s, c).len() >= 1,
    decreases s.len(),
{
    let p = pieces(s, c);
    if s.len() == 0 {
        assert(put_together(p, c) =~= s);
    } else {
        let t = s.drop_last();
        pieces_lie_between_separators(t, c);
        let q = pieces(t, c);
        if s.last() == c {
            assert(p.drop_last() =~= q);
            assert(put_together(p, c) =~= s);
        } else {
            assert(p.drop_last() =~= q.drop_last());
            assert(put_together(p, c) =~= put_together(q, c).push(s.last()));
            assert(put_together(p, c) =~= s);
            assert forall|i: int| 0 <= i < p.len() implies !(#[trigger] p[i]).contains(c) by {
                if i < q.len() - 1 {
                    assert(p[i] == q[i]);
                } else {
                    assert(!q[i].contains(c));
                    if p[i].contains(c) {
                        let k = choose|k: int| 0 <= k < p[i].len() && p[i][k] == c;
                        assert(q[i][k] == c);
                    }
                }
            }
        }
    }
}

/// What stands behind the last separator is the last piece, and what stands before the first one
/// is the first.
pub proof fn the_last_piece_is_the_rest(a: Seq<char>, b: Seq<char>, c: char)
    ensures
        !b.contains(c) ==> pieces(a.push(c) + b, c).last() == b,
        !a.contains(c) ==> pieces(a.push(c) + b, c)[0] == a,
        !a.contains(c) ==> pieces(a, c) == seq![a],
    decreases a.len() + b.len(),
{
    let s = a.push(c) + b;
    if !a.contains(c) {
        lemma_one_piece(a, c);
    }
    if b.len() == 0 {
        assert(s.drop_last() =~= a);
        assert(b =~= Seq::empty());
        pieces_not_empty(a, c);
    } else {
        let t = b.drop_last();
        assert(s.drop_last() =~= a.push(c) + t);
        the_last_piece_is_the_rest(a, t, c);
        lemma_two_pieces(a, t, c);
        if !b.contains(c) {
            assert(b[b.len() - 1] == b.last());
            assert(!t.contains(c)) by {
                if t.contains(c) {
                    let k = choose|k: int| 0 <= k < t.len() && t[k] == c;
                    assert(b[k] == c);
                }
            }
            assert(t.push(b.last()) =~= b);
        }
    }
}

proof fn lemma_one_piece(a: Seq<char>, c: char)
    requires
        !a.contains(c),
    ensures
        pieces(a, c) == seq![a],
    decreases a.len(),
{
    if a.len() > 0 {
        let t = a.drop_last();
        assert(!t.contains(c)) by {
            if t.contains(c) {
                let k = choose|k: int| 0 <= k < t.len() && t[k] == c;
                assert(a[k] == c);
            }
        }
        assert(a[a.len() - 1] == a.last());
        lemma_one_piece(t, c);
        assert(t.push(a.last()) =~= a);
        assert(pieces(a, c) =~= seq![a]);
    } else {
        assert(a =~= Seq::empty());
    }
}

proof fn lemma_two_pieces(a: Seq<char>, b: Seq<char>, c: char)
    ensures
        pieces(a.push(c) + b, c).len() >= 2,
    decreases b.len(),
{
    let s = a.push(c) + b;
    if b.len() == 0 {
        assert(s.drop_last() =~= a);
        pieces_not_empty(a, c);
    } else {
        assert(s.drop_last() =~= a.push(c) + b.drop_last());
        lemma_two_pieces(a, b.drop_last(), c);
    }
}

/// What a list keeps of its parts: those that are not blank, trimmed, in their order. Lists one
/// behind the other keep what each of them does.
pub proof fn blank_parts_are_left_out(a: Seq<Seq<char>>, b: Seq<Seq<char>>, x: Seq<char>)
    ensures
        nonblank(a + b) == nonblank(a) + nonblank(b),
        trimmed(x).len() > 0 ==> nonblank(seq![x]) == seq![trimmed(x)],
        trimmed(x).len() == 0 ==> nonblank(seq![x]).len() == 0,
    decreases b.len(),
{
    reveal_with_fuel(nonblank, 2);
    assert(seq![x].drop_last() =~= Seq::empty());
    assert(Seq::<Seq<char>>::empty().push(trimmed(x)) =~= seq![trimmed(x)]);
    if b.len() > 0 {
        let t = b.drop_last();
        blank_parts_are_left_out(a, t, x);
        assert((a + b).drop_last() =~= a + t);
        assert(nonblank(a + b) =~= nonblank(a) + nonblank(b));
    } else {
        assert(a + b =~= a);
        assert(nonblank(a) + nonblank(b) =~= nonblank(a));
    }
}

/// The path of a name in a folder begins with the folder and ends in the name; between the two is
/// at most one character, and what the name follows is a separator, or, on Windows, a drive.
pub proof fn a_name_stands_in_its_folder(windows: bool, dir: Seq<char>, name: Seq<char>)
    ensures
        ({
            let p = joined(windows, dir, name);
            let at = p.len() - name.len();
            &&& dir.len() <= at <= dir.len() + 1
            &&& p.take(dir.len() as int) == dir
            &&& p.skip(at) == name
            &&& dir.len() == 0 ==> p == name
            &&& dir.len() > 0 && !windows ==> p[at - 1] == '/'
            &&& dir.len() > 0 && windows ==> p[at - 1] == '/' || p[at - 1] == '\\' || p[at - 1] == ':'
            &&& at == dir.len() + 1 ==> p[at - 1] == (if windows {
                '\\'
            } else {
                '/'
            })
            &&& dir.len() > 0 && (dir.last() == '/' || windows && dir.last() == '\\') ==> at
                == dir.len()
        }),
{
    let p = joined(windows, dir, name);
    let at = p.len() - name.len();
    assert(p.take(dir.len() as int) =~= dir);
    assert(p.skip(at) =~= name);
    if dir.len() == 0 {
        assert(p =~= name);
    }
}

proof fn lemma_digit_run(s: Seq<char>, i: int, j: int)
    requires
        0 <= i <= j <= s.len(),
        forall|k: int| i <= k < j ==> '0' <= #[trigger] s[k] <= '9',
        j == s.len() || !('0' <= s[j] <= '9'),
    ensures
        digit_run(s, i) == j,
    decreases j - i,
{
    if i < j {
        assert('0' <= s[i] <= '9');
        lemma_digit_run(s, i + 1, j);
    }
}

/// Numbers in decimal are real numbers, with a sign and with a point too; a text that is empty, or
/// a sign alone, is none.
pub proof fn decimals_are_real(n: nat, m: nat)
    ensures
        is_real(decimal(n)),
        is_real(seq!['-'] + decimal(n)),
        is_real(decimal(n).push('.') + decimal(m)),
        is_real(seq!['-'] + (decimal(n).push('.') + decimal(m))),
        !is_real(Seq::empty()),
        !is_real(seq!['-']),
{
    let (a, b) = (decimal(n), decimal(m));
    decimals_read_back(n);
    decimals_read_back(m);
    assert('0' <= a[0] <= '9');
    lemma_digit_run(a, 0, a.len() as int);
    let t = a.push('.') + b;
    assert forall|k: int| 0 <= k < a.len() implies '0' <= #[trigger] t[k] <= '9' by {
        assert('0' <= a[k] <= '9');
    }
    assert forall|k: int| a.len() + 1 <= k < t.len() implies '0' <= #[trigger] t[k] <= '9' by {
        assert('0' <= b[k - a.len() - 1] <= '9');
    }
    assert(t[a.len() as int] == '.');
    lemma_digit_run(t, 0, a.len() as int);
    lemma_digit_run(t, a.len() as int + 1, t.len() as int);
    assert('0' <= t[0] <= '9');
    assert((seq!['-'] + a).drop_first() =~= a);
    assert((seq!['-'] + t).drop_first() =~= t);
    assert(seq!['-'].drop_first() =~= Seq::<char>::empty());
    reveal_strlit("inf");
    reveal_strlit("infinity");
    reveal_strlit("nan");
}

/// Texts alike but for the case of ASCII letters: each is like itself, and two that are like a third
/// are alike; letters are like their capitals, and nothing else is like another.
pub proof fn likeness_is_about_letters(a: Seq<char>, b: Seq<char>, c: Seq<char>, x: char, y: char)
    ensures
        same_ignoring_case(a, a),
        same_ignoring_case(a, b) ==> same_ignoring_case(b, a),
        same_ignoring_case(a, b) && same_ignoring_case(b, c) ==> same_ignoring_case(a, c),
        same_ignoring_case(a, b) ==> a.len() == b.len(),
        same_ignoring_case(seq![x], seq![y]) <==> x == y || ('A' <= x <= 'Z' && y as int == x as int
            + 32) || ('A' <= y <= 'Z' && x as int == y as int + 32),
{
    if same_ignoring_case(a, b) && same_ignoring_case(b, c) {
        assert forall|i: int| 0 <= i < a.len() implies ascii_lower(#[trigger] a[i]) == ascii_lower(
            c[i],
        ) by {
            assert(ascii_lower(b[i]) == ascii_lower(c[i]));
        }
    }
    if same_ignoring_case(a, b) {
        assert forall|i: int| 0 <= i < b.len() implies ascii_lower(#[trigger] b[i]) == ascii_lower(
            a[i],
        ) by {
            assert(ascii_lower(a[i]) == ascii_lower(b[i]));
        }
    }
    let (s, t) = (seq![x], seq![y]);
    assert(s[0] == x && t[0] == y);
}

/// The pieces of two texts with a separator between them are those of the one and then those of the
/// other.
pub proof fn pieces_follow_each_other(a: Seq<char>, b: Seq<char>, c: char)
    ensures
        pieces(a.push(c) + b, c) == pieces(a, c) + pieces(b, c),
    decreases b.len(),
{
    let s = a.push(c) + b;
    pieces_not_empty(b, c);
    if b.len() == 0 {
        assert(s.drop_last() =~= a);
        assert(pieces(s, c) =~= pieces(a, c) + pieces(b, c));
    } else {
        let t = b.drop_last();
        assert(s.drop_last() =~= a.push(c) + t);
        pieces_follow_each_other(a, t, c);
        pieces_not_empty(t, c);
        assert(pieces(s, c) =~= pieces(a, c) + pieces(b, c));
    }
}

} // verus!
