//! How long tunes took: the figures printed at the end of a session.

use vstd::prelude::*;

verus! {

/// One tune: from the key press to the picture, and how it was found. Microseconds.
#[derive(Clone, Copy, PartialEq, Eq, Structural, Debug)]
pub struct TuneStats {
    pub total: u64,
    pub lock_wait: u64,
    pub primed_hit: bool,
    pub cold_open: bool,
}

/// The figures of a session.
#[derive(Clone, Copy, PartialEq, Eq, Structural, Debug)]
pub struct Figures {
    pub tunes: usize,
    pub min: u64,
    pub p50: u64,
    pub p90: u64,
    pub p99: u64,
    pub max: u64,
    /// All times together; the average is this over the tunes.
    pub sum: u128,
    pub hits: usize,
    pub cold: usize,
    pub lock_max: u64,
}

pub open spec fn is_sorted(s: Seq<u64>) -> bool {
    forall|i: int, j: int| 0 <= i <= j < s.len() ==> s[i] <= s[j]
}

pub open spec fn times(s: Seq<TuneStats>) -> Seq<u64> {
    s.map_values(|t: TuneStats| t.total)
}

/// Where the value stands that `permille` of `n` sorted values come before: rounded to the
/// nearest, the upper one of two.
pub open spec fn rank(n: int, permille: int) -> int {
    (2 * (n - 1) * permille + 1000) / 2000
}

pub open spec fn sum_of(s: Seq<u64>) -> int
    decreases s.len(),
{
    if s.len() == 0 {
        0
    } else {
        sum_of(s.drop_last()) + s.last()
    }
}

pub open spec fn count_of(s: Seq<TuneStats>, what: spec_fn(TuneStats) -> bool) -> nat
    decreases s.len(),
{
    if s.len() == 0 {
        0
    } else {
        count_of(s.drop_last(), what) + if what(s.last()) {
            1nat
        } else {
            0nat
        }
    }
}

/// The longest wait for a lock.
pub open spec fn longest_wait(s: Seq<TuneStats>) -> int
    decreases s.len(),
{
    if s.len() == 0 {
        0
    } else {
        let before = longest_wait(s.drop_last());
        if s.last().lock_wait > before {
            s.last().lock_wait as int
        } else {
            before
        }
    }
}

/// `f` are the figures of the tunes `s`, whose times are `sorted` in order.
pub open spec fn are_figures(f: Figures, s: Seq<TuneStats>, sorted: Seq<u64>) -> bool {
    let n = s.len() as int;
    &&& f.tunes == n
    &&& f.min == sorted[0]
    &&& f.p50 == sorted[rank(n, 500)]
    &&& f.p90 == sorted[rank(n, 900)]
    &&& f.p99 == sorted[rank(n, 990)]
    &&& f.max == sorted[n - 1]
    &&& f.sum == sum_of(times(s))
    &&& f.hits == count_of(s, |t: TuneStats| t.primed_hit)
    &&& f.cold == count_of(s, |t: TuneStats| t.cold_open)
    &&& f.lock_max == longest_wait(s)
}

/// Puts `x` in its place among sorted values.
fn insert_sorted(v: &mut Vec<u64>, x: u64)
    requires
        is_sorted(old(v)@),
    ensures
        is_sorted(final(v)@),
        final(v)@.to_multiset() == old(v)@.to_multiset().insert(x),
        final(v)@.len() == old(v)@.len() + 1,
{
    let mut i: usize = 0;
    while i < v.len() && v[i] <= x
        invariant
            v@ == old(v)@,
            i <= v@.len(),
            forall|j: int| 0 <= j < i ==> #[trigger] v@[j] <= x,
        decreases v.len() - i,
    {
        i += 1;
    }
    proof {
        old(v)@.insert_ensures(i as int, x);
        vstd::seq_lib::to_multiset_insert(old(v)@, i as int, x);
    }
    v.insert(i, x);
}

/// The times in order.
pub fn sort_times(s: &Vec<TuneStats>) -> (r: Vec<u64>)
    ensures
        is_sorted(r@),
        r@.to_multiset() == times(s@).to_multiset(),
        r@.len() == s@.len(),
{
    broadcast use vstd::seq_lib::group_to_multiset_ensures;

    let mut v: Vec<u64> = Vec::new();
    let mut i: usize = 0;
    assert(times(s@).take(0) =~= Seq::<u64>::empty());
    assert(v@ =~= Seq::<u64>::empty());
    while i < s.len()
        invariant
            i <= s@.len(),
            is_sorted(v@),
            v@.len() == i,
            v@.to_multiset() == times(s@).take(i as int).to_multiset(),
        decreases s.len() - i,
    {
        broadcast use vstd::seq_lib::group_to_multiset_ensures;

        insert_sorted(&mut v, s[i].total);
        assert(times(s@).take(i + 1) =~= times(s@).take(i as int).push(s@[i as int].total));
        i += 1;
    }
    assert(times(s@).take(i as int) =~= times(s@));
    v
}

proof fn lemma_rank(n: int, permille: int)
    requires
        n >= 1,
        0 <= permille <= 1000,
    ensures
        0 <= rank(n, permille) < n,
{
    assert(0 <= 2 * (n - 1) * permille <= 2000 * (n - 1)) by (nonlinear_arith)
        requires
            n >= 1,
            0 <= permille <= 1000,
    ;
}

fn ranked(v: &Vec<u64>, permille: u128) -> (r: u64)
    requires
        v@.len() >= 1,
        permille <= 1000,
    ensures
        r == v@[rank(v@.len() as int, permille as int)],
{
    let n: usize = v.len();
    proof {
        lemma_rank(n as int, permille as int);
        assert(0 <= 2 * (n - 1) * permille <= 2000 * (n - 1)) by (nonlinear_arith)
            requires
                n >= 1,
                0 <= permille <= 1000,
        ;
    }
    let i: u128 = (2 * (n as u128 - 1) * permille + 1000) / 2000;
    v[i as usize]
}

/// The figures of a session. None: nothing was tuned.
pub fn figures(s: &Vec<TuneStats>) -> (r: Option<Figures>)
    ensures
        r is None <==> s@.len() == 0,
        r matches Some(f) ==> exists|sorted: Seq<u64>|
            #![trigger is_sorted(sorted)]
            is_sorted(sorted) && sorted.to_multiset() == times(s@).to_multiset() && sorted.len()
                == s@.len() && are_figures(f, s@, sorted),
{
    if s.len() == 0 {
        return None;
    }
    let n: usize = s.len();
    let t = sort_times(s);
    let mut sum: u128 = 0;
    let mut hits: usize = 0;
    let mut cold: usize = 0;
    let mut lock_max: u64 = 0;
    let mut i: usize = 0;
    while i < s.len()
        invariant
            i <= s@.len(),
            hits <= i,
            cold <= i,
            sum <= i * 0xffff_ffff_ffff_ffff,
            sum == sum_of(times(s@).take(i as int)),
            hits == count_of(s@.take(i as int), |t: TuneStats| t.primed_hit),
            cold == count_of(s@.take(i as int), |t: TuneStats| t.cold_open),
            lock_max == longest_wait(s@.take(i as int)),
        decreases s.len() - i,
    {
        proof {
            let a = s@.take(i + 1);
            assert(a.drop_last() =~= s@.take(i as int));
            let b = times(s@).take(i + 1);
            assert(b.drop_last() =~= times(s@).take(i as int));
            assert(b.last() == s@[i as int].total);
        }
        sum = sum + s[i].total as u128;
        if s[i].primed_hit {
            hits += 1;
        }
        if s[i].cold_open {
            cold += 1;
        }
        if s[i].lock_wait > lock_max {
            lock_max = s[i].lock_wait;
        }
        i += 1;
    }
    proof {
        assert(s@.take(i as int) =~= s@);
        assert(times(s@).take(i as int) =~= times(s@));
    }
    let f = Figures {
        tunes: n,
        min: t[0],
        p50: ranked(&t, 500),
        p90: ranked(&t, 900),
        p99: ranked(&t, 990),
        max: t[n - 1],
        sum,
        hits,
        cold,
        lock_max,
    };
    proof {
        assert(are_figures(f, s@, t@));
    }
    Some(f)
}

/// The figures are in order.
pub proof fn figures_are_in_order(f: Figures, s: Seq<TuneStats>, sorted: Seq<u64>)
    requires
        s.len() > 0,
        sorted.len() == s.len(),
        is_sorted(sorted),
        are_figures(f, s, sorted),
    ensures
        f.min <= f.p50 <= f.p90 <= f.p99 <= f.max,
{
    let n = s.len() as int;
    lemma_rank(n, 500);
    lemma_rank(n, 900);
    lemma_rank(n, 990);
}

proof fn lemma_within(s: Seq<TuneStats>, sorted: Seq<u64>, i: int) -> (j: int)
    requires
        sorted.to_multiset() == times(s).to_multiset(),
        0 <= i < s.len(),
    ensures
        0 <= j < sorted.len(),
        sorted[j] == s[i].total,
{
    crate::order::lemma_same_elements(sorted, times(s));
    assert(times(s)[i] == s[i].total);
    assert(times(s).contains(s[i].total));
    choose|j: int| 0 <= j < sorted.len() && sorted[j] == s[i].total
}

/// No tune was quicker than the least of the figures or slower than the greatest, and none waited
/// longer for a lock than they say.
pub proof fn figures_hold_every_tune(f: Figures, s: Seq<TuneStats>, sorted: Seq<u64>, i: int)
    requires
        0 <= i < s.len(),
        sorted.len() == s.len(),
        is_sorted(sorted),
        sorted.to_multiset() == times(s).to_multiset(),
        are_figures(f, s, sorted),
    ensures
        f.min <= s[i].total <= f.max,
        s[i].lock_wait <= f.lock_max,
        f.tunes == s.len(),
{
    let j = lemma_within(s, sorted, i);
    assert(sorted[0] <= sorted[j] <= sorted[sorted.len() - 1]);
    lemma_waits(s, i);
}

proof fn lemma_waits(s: Seq<TuneStats>, i: int)
    requires
        0 <= i < s.len(),
    ensures
        s[i].lock_wait <= longest_wait(s),
    decreases s.len(),
{
    if i < s.len() - 1 {
        lemma_waits(s.drop_last(), i);
    }
}

/// Where a share of the sorted values ends: at the first for none of them, at the last for all, in
/// the middle for half of them, and further up the larger the share is.
pub proof fn ranks_go_up_with_the_share(n: int, less: int, more: int)
    requires
        1 <= n,
        0 <= less <= more <= 1000,
    ensures
        rank(n, 0) == 0,
        rank(n, 1000) == n - 1,
        0 <= rank(n, less) <= rank(n, more) <= n - 1,
        n % 2 == 1 ==> rank(n, 500) == n / 2,
{
    assert(0 <= 2 * (n - 1) * less <= 2 * (n - 1) * more <= 2 * (n - 1) * 1000) by (nonlinear_arith)
        requires
            1 <= n,
            0 <= less <= more <= 1000,
    ;
}

/// Tunes are counted one by one: the sums and counts of two sessions add up.
pub proof fn counts_add_up(
    a: Seq<TuneStats>,
    b: Seq<TuneStats>,
    what: spec_fn(TuneStats) -> bool,
    t: TuneStats,
)
    ensures
        count_of(a + b, what) == count_of(a, what) + count_of(b, what),
        count_of(seq![t], what) == (if what(t) {
            1nat
        } else {
            0nat
        }),
        sum_of(times(a + b)) == sum_of(times(a)) + sum_of(times(b)),
        sum_of(times(seq![t])) == t.total,
    decreases b.len(),
{
    reveal_with_fuel(count_of, 2);
    reveal_with_fuel(sum_of, 2);
    assert(seq![t].drop_last() =~= Seq::empty());
    assert(times(seq![t]) =~= seq![t.total]);
    assert(seq![t.total].drop_last() =~= Seq::empty());
    if b.len() > 0 {
        counts_add_up(a, b.drop_last(), what, t);
        assert((a + b).drop_last() =~= a + b.drop_last());
        assert((a + b).last() == b.last());
        assert(times(a + b).drop_last() =~= times(a + b.drop_last()));
        assert(times(b).drop_last() =~= times(b.drop_last()));
        assert(times(a + b).last() == b.last().total);
        assert(times(b).last() == b.last().total);
    } else {
        assert(a + b =~= a);
        assert(times(b) =~= Seq::empty());
    }
}

/// A share of the values ends at the nearest of them, the upper one of two.
pub proof fn ranks_are_rounded(n: int, permille: int)
    ensures
        -1000 < 2000 * rank(n, permille) - 2 * (n - 1) * permille <= 1000,
{
    let x = 2 * (n - 1) * permille + 1000;
    vstd::arithmetic::div_mod::lemma_fundamental_div_mod(x, 2000);
    vstd::arithmetic::div_mod::lemma_mod_bound(x, 2000);
}

/// Half of the tunes, nine in ten, and all but one in a hundred take no longer than the figures say:
/// each of the three is a time of the list that stands where that share of it ends, and none is less
/// than the one before.
pub proof fn shares_of_the_tunes_are_no_slower(
    f: Figures,
    s: Seq<TuneStats>,
    sorted: Seq<u64>,
) -> (at: (int, int, int))
    requires
        0 < s.len(),
        sorted.len() == s.len(),
        is_sorted(sorted),
        are_figures(f, s, sorted),
    ensures
        ({
            let n = s.len() as int;
            &&& 0 <= at.0 <= at.1 <= at.2 < n
            &&& f.p50 == sorted[at.0] && -1000 < 2000 * at.0 - 1000 * (n - 1) <= 1000
            &&& f.p90 == sorted[at.1] && -1000 < 2000 * at.1 - 1800 * (n - 1) <= 1000
            &&& f.p99 == sorted[at.2] && -1000 < 2000 * at.2 - 1980 * (n - 1) <= 1000
            &&& f.min <= f.p50 <= f.p90 <= f.p99 <= f.max
        }),
{
    let n = s.len() as int;
    ranks_are_rounded(n, 500);
    ranks_are_rounded(n, 900);
    ranks_are_rounded(n, 990);
    ranks_go_up_with_the_share(n, 500, 900);
    ranks_go_up_with_the_share(n, 900, 990);
    (rank(n, 500), rank(n, 900), rank(n, 990))
}

proof fn lemma_all_or_none(s: Seq<TuneStats>, what: spec_fn(TuneStats) -> bool)
    ensures
        (forall|i: int| 0 <= i < s.len() ==> what(#[trigger] s[i])) ==> count_of(s, what) == s.len(),
        (forall|i: int| 0 <= i < s.len() ==> !what(#[trigger] s[i])) ==> count_of(s, what) == 0,
    decreases s.len(),
{
    if s.len() > 0 {
        let t = s.drop_last();
        lemma_all_or_none(t, what);
        assert(s[s.len() - 1] == s.last());
        if forall|i: int| 0 <= i < s.len() ==> what(#[trigger] s[i]) {
            assert forall|i: int| 0 <= i < t.len() implies what(#[trigger] t[i]) by {
                assert(t[i] == s[i]);
            }
            assert(what(s.last()));
        }
        if forall|i: int| 0 <= i < s.len() ==> !what(#[trigger] s[i]) {
            assert forall|i: int| 0 <= i < t.len() implies !what(#[trigger] t[i]) by {
                assert(t[i] == s[i]);
            }
            assert(!what(s.last()));
        }
    }
}

/// Where every tune found its channel primed, all of them are hits, and none is where none did; the
/// same of those that had to open their file. The longest wait is that of one of them.
pub proof fn hits_are_primed_and_cold_ones_are_not(
    f: Figures,
    s: Seq<TuneStats>,
    sorted: Seq<u64>,
) -> (at: int)
    requires
        0 < s.len(),
        are_figures(f, s, sorted),
    ensures
        (forall|i: int| 0 <= i < s.len() ==> (#[trigger] s[i]).primed_hit) ==> f.hits == s.len(),
        (forall|i: int| 0 <= i < s.len() ==> !(#[trigger] s[i]).primed_hit) ==> f.hits == 0,
        (forall|i: int| 0 <= i < s.len() ==> (#[trigger] s[i]).cold_open) ==> f.cold == s.len(),
        (forall|i: int| 0 <= i < s.len() ==> !(#[trigger] s[i]).cold_open) ==> f.cold == 0,
        0 <= at < s.len(),
        f.lock_max == s[at].lock_wait,
{
    lemma_all_or_none(s, |t: TuneStats| t.primed_hit);
    lemma_all_or_none(s, |t: TuneStats| t.cold_open);
    lemma_longest(s)
}

proof fn lemma_longest(s: Seq<TuneStats>) -> (at: int)
    requires
        0 < s.len(),
    ensures
        0 <= at < s.len(),
        longest_wait(s) == s[at].lock_wait,
    decreases s.len(),
{
    let t = s.drop_last();
    if t.len() == 0 {
        assert(longest_wait(t) == 0);
        0
    } else {
        let k = lemma_longest(t);
        if s.last().lock_wait > longest_wait(t) {
            s.len() - 1
        } else {
            k
        }
    }
}

} // verus!
