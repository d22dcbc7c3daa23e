//! Orders: text keys compared character by character, stable sorting of indices by such keys, and
//! the deterministic shuffle.

use vstd::prelude::*;

verus! {

// ---------------------------------------------------------------- text order

/// Lexicographic order of texts by code point.
pub open spec fn text_lt(a: Seq<char>, b: Seq<char>) -> bool
    decreases b.len(),
{
    if b.len() == 0 {
        false
    } else if a.len() == 0 {
        true
    } else if a[0] != b[0] {
        a[0] < b[0]
    } else {
        text_lt(a.drop_first(), b.drop_first())
    }
}

/// Texts are totally ordered: of two different ones exactly one comes first.
pub proof fn text_order_is_total(a: Seq<char>, b: Seq<char>)
    ensures
        a == b ==> !text_lt(a, b),
        a != b ==> (text_lt(a, b) <==> !text_lt(b, a)),
    decreases b.len(),
{
    if a.len() == 0 || b.len() == 0 {
        if a.len() == 0 && b.len() == 0 {
            assert(a =~= b);
        }
    } else if a[0] == b[0] {
        let (x, y) = (a.drop_first(), b.drop_first());
        text_order_is_total(x, y);
        assert(text_lt(a, b) == text_lt(x, y));
        assert(text_lt(b, a) == text_lt(y, x));
        if x == y {
            assert forall|i: int| 0 <= i < a.len() implies a[i] == b[i] by {
                if i > 0 {
                    assert(a[i] == x[i - 1]);
                    assert(b[i] == y[i - 1]);
                }
            }
            assert(a =~= b);
        }
    }
}

/// The text order is transitive.
pub proof fn text_order_is_transitive(a: Seq<char>, b: Seq<char>, c: Seq<char>)
    requires
        text_lt(a, b),
        text_lt(b, c),
    ensures
        text_lt(a, c),
    decreases c.len(),
{
    if a.len() > 0 && a[0] == b[0] && b[0] == c[0] {
        text_order_is_transitive(a.drop_first(), b.drop_first(), c.drop_first());
    }
}

/// Whether `a` comes before `b`.
pub fn text_less(a: &Vec<char>, b: &Vec<char>) -> (r: bool)
    ensures
        r == text_lt(a@, b@),
{
    let mut i: usize = 0;
    assert(a@.skip(0) =~= a@);
    assert(b@.skip(0) =~= b@);
    while i < a.len() && i < b.len()
        invariant
            i <= a@.len(),
            i <= b@.len(),
            text_lt(a@, b@) == text_lt(a@.skip(i as int), b@.skip(i as int)),
        decreases a@.len() - i,
    {
        assert(a@.skip(i as int)[0] == a@[i as int]);
        assert(b@.skip(i as int)[0] == b@[i as int]);
        if a[i] != b[i] {
            return a[i] < b[i];
        }
        assert(a@.skip(i as int).drop_first() =~= a@.skip(i + 1));
        assert(b@.skip(i as int).drop_first() =~= b@.skip(i + 1));
        i += 1;
    }
    i < b.len()
}

// ---------------------------------------------------------------- stable sorting

/// `s`, already in order, with `x` put behind every index whose key is not greater.
pub open spec fn insert_by(s: Seq<usize>, keys: Seq<Seq<char>>, x: usize) -> Seq<usize>
    decreases s.len(),
{
    if s.len() > 0 && text_lt(keys[x as int], keys[s.last() as int]) {
        insert_by(s.drop_last(), keys, x).push(s.last())
    } else {
        s.push(x)
    }
}

/// The indices of `s` by ascending key; indices with the same key keep their order.
pub open spec fn sort_by(s: Seq<usize>, keys: Seq<Seq<char>>) -> Seq<usize>
    decreases s.len(),
{
    if s.len() == 0 {
        s
    } else {
        insert_by(sort_by(s.drop_last(), keys), keys, s.last())
    }
}

/// No index stands before one with a smaller key.
pub open spec fn is_sorted_by(s: Seq<usize>, keys: Seq<Seq<char>>) -> bool {
    forall|i: int, j: int|
        0 <= i < j < s.len() ==> !text_lt(
            #[trigger] keys[s[j] as int],
            #[trigger] keys[s[i] as int],
        )
}

/// The indices of `s` that carry the key `k`, in the order in which they stand.
pub open spec fn with_key(s: Seq<usize>, keys: Seq<Seq<char>>, k: Seq<char>) -> Seq<usize>
    decreases s.len(),
{
    if s.len() == 0 {
        s
    } else {
        let rest = with_key(s.drop_last(), keys, k);
        if keys[s.last() as int] == k {
            rest.push(s.last())
        } else {
            rest
        }
    }
}

proof fn lemma_not_lt_transitive(a: Seq<char>, b: Seq<char>, c: Seq<char>)
    requires
        !text_lt(b, a),
        !text_lt(c, b),
    ensures
        !text_lt(c, a),
{
    text_order_is_total(a, b);
    text_order_is_total(b, c);
    text_order_is_total(a, c);
    if text_lt(c, a) {
        if a != b {
            text_order_is_transitive(c, a, b);
        }
    }
}

proof fn lemma_insert_by(s: Seq<usize>, keys: Seq<Seq<char>>, x: usize)
    requires
        is_sorted_by(s, keys),
    ensures
        is_sorted_by(insert_by(s, keys, x), keys),
        insert_by(s, keys, x).to_multiset() == s.push(x).to_multiset(),
        insert_by(s, keys, x).len() == s.len() + 1,
        forall|k: Seq<char>| #[trigger]
            with_key(insert_by(s, keys, x), keys, k) == with_key(s.push(x), keys, k),
    decreases s.len(),
{
    broadcast use vstd::seq_lib::group_to_multiset_ensures;

    let kx = keys[x as int];
    assert forall|k: Seq<char>| #[trigger] with_key(s.push(x), keys, k) == (if kx == k {
        with_key(s, keys, k).push(x)
    } else {
        with_key(s, keys, k)
    }) by {
        assert(s.push(x).drop_last() =~= s);
    }
    if s.len() > 0 && text_lt(kx, keys[s.last() as int]) {
        let t = s.drop_last();
        let last = s.last();
        let inner = insert_by(t, keys, x);
        let r = insert_by(s, keys, x);
        lemma_insert_by(t, keys, x);
        assert(s =~= t.push(last));
        assert(r == inner.push(last));
        assert(inner.to_multiset() == t.to_multiset().insert(x));
        assert(r.to_multiset() == t.to_multiset().insert(x).insert(last));
        assert(s.push(x).to_multiset() == t.to_multiset().insert(last).insert(x));
        assert(r.to_multiset() =~= s.push(x).to_multiset());
        assert forall|i: int, j: int| 0 <= i < j < r.len() implies !text_lt(
            #[trigger] keys[r[j] as int],
            #[trigger] keys[r[i] as int],
        ) by {
            if j < r.len() - 1 {
                assert(r[i] == inner[i] && r[j] == inner[j]);
            } else {
                assert(r[j] == last);
                assert(r[i] == inner[i]);
                assert(inner.to_multiset().count(inner[i]) > 0);
                assert(t.push(x).to_multiset().count(inner[i]) > 0);
                assert(t.push(x).contains(inner[i]));
                let p = choose|p: int| 0 <= p < t.push(x).len() && t.push(x)[p] == inner[i];
                if p < t.len() {
                    assert(s[p] == inner[i]);
                    assert(s[s.len() - 1] == last);
                } else {
                    text_order_is_total(kx, keys[last as int]);
                }
            }
        }
        assert forall|k: Seq<char>| #[trigger] with_key(r, keys, k) == with_key(
            s.push(x),
            keys,
            k,
        ) by {
            assert(r.drop_last() =~= inner);
            assert(with_key(inner, keys, k) == with_key(t.push(x), keys, k));
            assert(t.push(x).drop_last() =~= t);
            if keys[last as int] == k {
                text_order_is_total(kx, keys[last as int]);
            }
        }
    } else {
        let r = s.push(x);
        assert forall|i: int, j: int| 0 <= i < j < r.len() implies !text_lt(
            #[trigger] keys[r[j] as int],
            #[trigger] keys[r[i] as int],
        ) by {
            if j == s.len() {
                if i < s.len() - 1 {
                    assert(!text_lt(keys[s[s.len() - 1] as int], keys[s[i] as int]));
                    lemma_not_lt_transitive(keys[s[i] as int], keys[s.last() as int], kx);
                }
            }
        }
    }
}

/// Sorting by key is stable: the result is in order, holds the same indices, and indices with the
/// same key stand in the order in which they came.
pub proof fn sorting_is_stable(s: Seq<usize>, keys: Seq<Seq<char>>)
    ensures
        is_sorted_by(sort_by(s, keys), keys),
        sort_by(s, keys).to_multiset() == s.to_multiset(),
        sort_by(s, keys).len() == s.len(),
        forall|k: Seq<char>| #[trigger]
            with_key(sort_by(s, keys), keys, k) == with_key(s, keys, k),
    decreases s.len(),
{
    broadcast use vstd::seq_lib::group_to_multiset_ensures;

    if s.len() > 0 {
        let t = s.drop_last();
        sorting_is_stable(t, keys);
        lemma_insert_by(sort_by(t, keys), keys, s.last());
        assert(s =~= t.push(s.last()));
        assert forall|k: Seq<char>| #[trigger]
            with_key(sort_by(s, keys), keys, k) == with_key(s, keys, k) by {
            let st = sort_by(t, keys);
            assert(st.push(s.last()).drop_last() =~= st);
            assert(with_key(st, keys, k) == with_key(t, keys, k));
        }
    }
}

/// The indices of `list` by ascending key, stably.
pub fn sort_indices(list: &Vec<usize>, keys: &Vec<Vec<char>>) -> (r: Vec<usize>)
    requires
        forall|i: int| 0 <= i < list@.len() ==> #[trigger] list@[i] < keys@.len(),
    ensures
        r@ == sort_by(list@, key_texts(keys@)),
        forall|i: int| 0 <= i < r@.len() ==> #[trigger] r@[i] < keys@.len(),
{
    let mut out: Vec<usize> = Vec::new();
    let ghost kt = key_texts(keys@);
    let mut i: usize = 0;
    assert(list@.take(0) =~= Seq::<usize>::empty());
    while i < list.len()
        invariant
            i <= list@.len(),
            kt == key_texts(keys@),
            forall|i: int| 0 <= i < list@.len() ==> #[trigger] list@[i] < keys@.len(),
            forall|i: int| 0 <= i < out@.len() ==> #[trigger] out@[i] < keys@.len(),
            out@ == sort_by(list@.take(i as int), kt),
        decreases list@.len() - i,
    {
        let x = list[i];
        let ghost before = out@;
        let mut p: usize = out.len();
        proof {
            assert(before.take(p as int) =~= before);
            assert(insert_by(before, kt, x) + before.skip(p as int) =~= insert_by(before, kt, x));
        }
        while p > 0 && text_less(&keys[x], &keys[out[p - 1]])
            invariant
                p <= out@.len(),
                x < keys@.len(),
                out@ == before,
                kt == key_texts(keys@),
                forall|i: int| 0 <= i < out@.len() ==> #[trigger] out@[i] < keys@.len(),
                insert_by(before, kt, x) == insert_by(before.take(p as int), kt, x)
                    + before.skip(p as int),
            decreases p,
        {
            proof {
                let t = before.take(p as int);
                assert(t.last() == before[p - 1]);
                assert(t.drop_last() =~= before.take(p - 1));
                let inner = insert_by(before.take(p - 1), kt, x);
                assert(inner.push(before[p - 1]) + before.skip(p as int) =~= inner + before.skip(
                    p - 1,
                ));
            }
            p -= 1;
        }
        proof {
            let t = before.take(p as int);
            if p > 0 {
                assert(t.last() == before[p - 1]);
            }
            assert(insert_by(t, kt, x) == t.push(x));
            assert(before.insert(p as int, x) =~= t.push(x) + before.skip(p as int));
            assert(list@.take(i + 1).drop_last() =~= list@.take(i as int));
        }
        out.insert(p, x);
        i += 1;
    }
    assert(list@.take(list@.len() as int) =~= list@);
    out
}

/// The texts of a vector of keys.
pub open spec fn key_texts(keys: Seq<Vec<char>>) -> Seq<Seq<char>> {
    keys.map_values(|k: Vec<char>| k@)
}

/// `s` without the indices that repeat the one before them.
pub open spec fn dedup(s: Seq<usize>) -> Seq<usize>
    decreases s.len(),
{
    if s.len() <= 1 {
        s
    } else if s.last() == s[s.len() - 2] {
        dedup(s.drop_last())
    } else {
        dedup(s.drop_last()).push(s.last())
    }
}

/// `v` without the indices that repeat the one before them.
pub fn dedup_indices(v: &Vec<usize>) -> (r: Vec<usize>)
    ensures
        r@ == dedup(v@),
        forall|i: int| 0 <= i < r@.len() ==> v@.contains(#[trigger] r@[i]),
{
    let mut out: Vec<usize> = Vec::new();
    let mut i: usize = 0;
    while i < v.len()
        invariant
            i <= v@.len(),
            out@ == dedup(v@.take(i as int)),
            forall|i: int| 0 <= i < out@.len() ==> v@.contains(#[trigger] out@[i]),
        decreases v@.len() - i,
    {
        let ghost t = v@.take(i + 1);
        assert(t.drop_last() =~= v@.take(i as int));
        assert(v@.contains(v@[i as int]));
        if i == 0 {
            out.push(v[i]);
            assert(dedup(v@.take(0)) =~= Seq::<usize>::empty());
            assert(out@ =~= t);
        } else if v[i] != v[i - 1] {
            out.push(v[i]);
        }
        i += 1;
    }
    assert(v@.take(v@.len() as int) =~= v@);
    out
}

// ---------------------------------------------------------------- the deterministic shuffle

/// One step of the 64-bit linear congruential generator behind every deal and draw.
pub open spec fn lcg(x: u64) -> u64 {
    ((x * 6364136223846793005 + 1442695040888963407) % 0x1_0000_0000_0000_0000) as u64
}

/// The number that a generator state yields.
pub open spec fn draw(x: u64) -> u64 {
    x / 0x2_0000_0000
}

/// One step of the generator.
pub fn lcg_next(x: u64) -> (r: u64)
    ensures
        r == lcg(x),
{
    let y = x.wrapping_mul(6364136223846793005).wrapping_add(1442695040888963407);
    proof {
        let m: int = 0x1_0000_0000_0000_0000;
        let p = x as int * 6364136223846793005;
        vstd::arithmetic::div_mod::lemma_add_mod_noop(p, 1442695040888963407, m);
        assert(p % m == x.wrapping_mul(6364136223846793005));
        assert(y == (p % m + 1442695040888963407) % m);
        vstd::arithmetic::div_mod::lemma_small_mod(1442695040888963407, m as nat);
    }
    y
}

/// The number that a generator state yields.
pub fn draw_from(x: u64) -> (r: u64)
    ensures
        r == draw(x),
{
    x / 0x2_0000_0000
}

pub open spec fn swapped(s: Seq<usize>, i: int, j: int) -> Seq<usize> {
    s.update(i, s[j]).update(j, s[i])
}

/// The Fisher-Yates walk from position `i` down: the state of the list and of the generator.
pub open spec fn shuffle_from(s: Seq<usize>, i: int, rng: u64) -> (Seq<usize>, u64)
    decreases i,
{
    if i <= 0 {
        (s, rng)
    } else {
        let r = lcg(rng);
        shuffle_from(swapped(s, i, draw(r) as int % (i + 1)), i - 1, r)
    }
}

/// A list shuffled from a seed, and the generator state behind it.
pub open spec fn shuffled(s: Seq<usize>, rng: u64) -> (Seq<usize>, u64) {
    shuffle_from(s, s.len() - 1, rng)
}

proof fn lemma_shuffle_from(s: Seq<usize>, i: int, rng: u64)
    requires
        i < s.len(),
    ensures
        shuffle_from(s, i, rng).0.to_multiset() == s.to_multiset(),
        shuffle_from(s, i, rng).0.len() == s.len(),
    decreases i,
{
    if i > 0 {
        let r = lcg(rng);
        let j = draw(r) as int % (i + 1);
        let t = swapped(s, i, j);
        assert(t.to_multiset() =~= s.to_multiset()) by {
            broadcast use vstd::seq_lib::group_to_multiset_ensures;

            let u = s.update(i, s[j]);
            assert(u.to_multiset() =~= s.to_multiset().remove(s[i]).insert(s[j]));
            assert(u[j] == s[j]);
            assert(t.to_multiset() =~= u.to_multiset().remove(u[j]).insert(s[i]));
        }
        lemma_shuffle_from(t, i - 1, r);
    }
}

/// A shuffle keeps every index: it only changes their order.
pub proof fn shuffling_permutes(s: Seq<usize>, rng: u64)
    ensures
        shuffled(s, rng).0.to_multiset() == s.to_multiset(),
        shuffled(s, rng).0.len() == s.len(),
{
    lemma_shuffle_from(s, s.len() - 1, rng);
}

/// The generator's state `n` steps on.
pub open spec fn steps_on(rng: u64, n: nat) -> u64
    decreases n,
{
    if n == 0 {
        rng
    } else {
        lcg(steps_on(rng, (n - 1) as nat))
    }
}

/// So many steps and so many more are as many in all.
pub proof fn steps_add_up(rng: u64, a: nat, b: nat)
    ensures
        steps_on(steps_on(rng, a), b) == steps_on(rng, a + b),
    decreases b,
{
    if b > 0 {
        steps_add_up(rng, a, (b - 1) as nat);
    }
}

proof fn lemma_shuffle_steps(s: Seq<usize>, i: int, rng: u64)
    requires
        0 <= i,
    ensures
        shuffle_from(s, i, rng).1 == steps_on(rng, i as nat),
    decreases i,
{
    if i > 0 {
        let r = lcg(rng);
        lemma_shuffle_steps(swapped(s, i, draw(r) as int % (i + 1)), i - 1, r);
        steps_add_up(rng, 1, (i - 1) as nat);
        assert(steps_on(rng, 1) == lcg(steps_on(rng, 0)));
    }
}

/// A shuffle takes one step of the generator for every index but the first.
pub proof fn a_shuffle_takes_its_steps(s: Seq<usize>, rng: u64)
    ensures
        s.len() > 0 ==> shuffled(s, rng).1 == steps_on(rng, (s.len() - 1) as nat),
        s.len() == 0 ==> shuffled(s, rng).1 == rng,
{
    if s.len() > 0 {
        lemma_shuffle_steps(s, s.len() - 1, rng);
    }
}

/// A walk from position `i` down leaves what stands above it, and does not depend on it.
proof fn lemma_shuffle_above(s: Seq<usize>, t: Seq<usize>, i: int, rng: u64)
    requires
        i < s.len() <= t.len(),
        t.take(s.len() as int) == s,
    ensures
        shuffle_from(s, i, rng).0.len() == s.len(),
        shuffle_from(t, i, rng).0 == shuffle_from(s, i, rng).0 + t.skip(s.len() as int),
        shuffle_from(t, i, rng).1 == shuffle_from(s, i, rng).1,
    decreases i,
{
    if i > 0 {
        let r = lcg(rng);
        let j = draw(r) as int % (i + 1);
        let (s2, t2) = (swapped(s, i, j), swapped(t, i, j));
        assert(s[i] == t[i]);
        assert(s[j] == t[j]);
        assert(t2.take(s2.len() as int) =~= s2);
        assert(t2.skip(s2.len() as int) =~= t.skip(s.len() as int));
        lemma_shuffle_above(s2, t2, i - 1, r);
    } else {
        assert(t =~= s + t.skip(s.len() as int));
    }
}

/// The last of a shuffled list is drawn from the whole list by the number that the next step of the
/// generator yields; those before it are the others, the last one in the place of the drawn one,
/// shuffled from there.
pub proof fn the_last_is_drawn_from_all(s: Seq<usize>, rng: u64)
    requires
        s.len() > 1,
    ensures
        ({
            let d = draw(lcg(rng)) as int % (s.len() as int);
            let others = s.update(d, s.last()).drop_last();
            &&& shuffled(s, rng).0.last() == s[d]
            &&& shuffled(s, rng).0.drop_last() == shuffled(others, lcg(rng)).0
            &&& shuffled(s, rng).1 == shuffled(others, lcg(rng)).1
        }),
{
    let i = s.len() - 1;
    let r = lcg(rng);
    let d = draw(r) as int % (i + 1);
    let t = swapped(s, i, d);
    let others = s.update(d, s.last()).drop_last();
    assert(t.take(i) =~= others);
    lemma_shuffle_above(others, t, i - 1, r);
    let out = shuffle_from(others, i - 1, r).0;
    assert(t.skip(i) =~= seq![s[d]]);
    assert((out + seq![s[d]]).drop_last() =~= out);
}

/// There is no number of 31 bits that the generator does not yield: from some state it is the next.
pub proof fn every_number_is_drawn(d: u64) -> (rng: u64)
    requires
        d < 0x8000_0000,
    ensures
        draw(lcg(rng)) == d,
{
    // The multiplier has an inverse modulo 2^64, so a step of the generator can be taken back.
    let m: int = 0x1_0000_0000_0000_0000;
    let a: int = 6364136223846793005;
    let inv: int = 13877824140714322085;
    let x: int = d * 0x2_0000_0000;
    let y: int = x - 1442695040888963407;
    let rng: int = (y * inv) % m;
    assert(inv * a == m * 4787856489426250814 + 1);
    vstd::arithmetic::div_mod::lemma_mul_mod_noop_left(y * inv, a, m);
    assert(y * inv * a == m * (y * 4787856489426250814) + y) by (nonlinear_arith)
        requires
            inv * a == m * 4787856489426250814 + 1,
    ;
    vstd::arithmetic::div_mod::lemma_mod_multiples_vanish(y * 4787856489426250814, y, m);
    assert((rng * a) % m == y % m);
    vstd::arithmetic::div_mod::lemma_add_mod_noop(rng * a, 1442695040888963407, m);
    vstd::arithmetic::div_mod::lemma_add_mod_noop(y, 1442695040888963407, m);
    vstd::arithmetic::div_mod::lemma_small_mod(x as nat, m as nat);
    assert((rng * a + 1442695040888963407) % m == x);
    vstd::arithmetic::div_mod::lemma_mod_bound(y * inv, m);
    rng as u64
}

/// Shuffles `v` in place from the generator state `rng`; returns the state behind the shuffle.
pub fn shuffle(v: &mut Vec<usize>, rng: u64) -> (r: u64)
    ensures
        (final(v)@, r) == shuffled(old(v)@, rng),
        final(v)@.len() == old(v)@.len(),
        final(v)@.to_multiset() == old(v)@.to_multiset(),
{
    let mut x = rng;
    let n: usize = v.len();
    if n < 2 {
        return x;
    }
    let mut i: usize = n - 1;
    while i > 0
        invariant
            i < n,
            v@.len() == n == old(v)@.len(),
            shuffle_from(v@, i as int, x) == shuffled(old(v)@, rng),
        decreases i,
    {
        x = lcg_next(x);
        let j: usize = (draw_from(x) % (i as u64 + 1)) as usize;
        let a = v[i];
        let b = v[j];
        v.set(i, b);
        v.set(j, a);
        i -= 1;
    }
    proof {
        shuffling_permutes(old(v)@, rng);
    }
    x
}

proof fn lemma_shuffling_moves_alike<A>(
    a: Seq<usize>,
    b: Seq<usize>,
    x: Seq<A>,
    y: Seq<A>,
    i: int,
    rng: u64,
)
    requires
        a.len() == b.len(),
        i < a.len(),
        forall|k: int| 0 <= k < a.len() ==> x[#[trigger] a[k] as int] == y[b[k] as int],
    ensures
        shuffle_from(a, i, rng).0.len() == shuffle_from(b, i, rng).0.len() == a.len(),
        forall|k: int|
            0 <= k < a.len() ==> x[#[trigger] shuffle_from(a, i, rng).0[k] as int]
                == y[shuffle_from(b, i, rng).0[k] as int],
    decreases i,
{
    if i > 0 {
        let r = lcg(rng);
        let j = draw(r) as int % (i + 1);
        let (a1, b1) = (swapped(a, i, j), swapped(b, i, j));
        assert(x[a[i] as int] == y[b[i] as int]);
        assert(x[a[j] as int] == y[b[j] as int]);
        assert forall|k: int| 0 <= k < a1.len() implies x[#[trigger] a1[k] as int]
            == y[b1[k] as int] by {
            assert(x[a[k] as int] == y[b[k] as int]);
        }
        lemma_shuffling_moves_alike(a1, b1, x, y, i - 1, r);
    }
}

/// A shuffle moves positions, whatever stands there: two lists of the same length that show the
/// same things do so after it.
pub proof fn shuffling_moves_alike<A>(
    a: Seq<usize>,
    b: Seq<usize>,
    x: Seq<A>,
    y: Seq<A>,
    rng: u64,
)
    requires
        a.len() == b.len(),
        forall|k: int| 0 <= k < a.len() ==> x[#[trigger] a[k] as int] == y[b[k] as int],
    ensures
        shuffled(a, rng).0.len() == shuffled(b, rng).0.len() == a.len(),
        forall|k: int|
            0 <= k < a.len() ==> x[#[trigger] shuffled(a, rng).0[k] as int] == y[shuffled(
                b,
                rng,
            ).0[k] as int],
{
    lemma_shuffling_moves_alike(a, b, x, y, a.len() - 1, rng);
}

/// The numbers below `n`, in order.
pub open spec fn numbers(n: nat) -> Seq<usize> {
    Seq::new(n, |i: int| i as usize)
}

/// A list with the elements of another holds just those, as often.
pub proof fn lemma_same_elements<A>(s: Seq<A>, t: Seq<A>)
    requires
        s.to_multiset() == t.to_multiset(),
    ensures
        s.len() == t.len(),
        forall|x: A| s.contains(x) <==> t.contains(x),
        t.no_duplicates() ==> s.no_duplicates(),
{
    broadcast use vstd::seq_lib::group_to_multiset_ensures;

    assert(s.to_multiset().len() == s.len());
    assert(t.to_multiset().len() == t.len());
    assert forall|x: A| s.contains(x) <==> t.contains(x) by {
        assert(s.contains(x) <==> s.to_multiset().count(x) > 0);
        assert(t.contains(x) <==> t.to_multiset().count(x) > 0);
    }
    if t.no_duplicates() {
        t.lemma_multiset_has_no_duplicates();
        s.lemma_multiset_has_no_duplicates_conv();
    }
}

/// A list with the elements of `numbers(n)` holds each number below `n` once.
pub proof fn lemma_permuted_numbers(s: Seq<usize>, n: nat)
    requires
        n <= usize::MAX,
        s.to_multiset() == numbers(n).to_multiset(),
    ensures
        s.len() == n,
        s.no_duplicates(),
        forall|i: int| 0 <= i < n ==> #[trigger] s[i] < n,
        forall|x: usize| s.contains(x) <==> x < n,
{
    lemma_same_elements(s, numbers(n));
    assert forall|x: usize| x < n implies numbers(n).contains(x) by {
        assert(numbers(n)[x as int] == x);
    }
    assert forall|i: int| 0 <= i < n implies #[trigger] s[i] < n by {
        assert(s.contains(s[i]));
    }
}

} // verus!
