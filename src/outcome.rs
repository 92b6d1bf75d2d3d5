//! The pairing reduction: a bonused pool collapses to one outcome.
//!
//! Values of six and more are successes. Equal successes fuse: a group of
//! `k` equal values `v` becomes the single value `v + k / 2`, and this is
//! repeated until all values differ. The highest value left is the outcome,
//! with half a point more when another value left is within one of it.
//! A pool without successes scores its highest die.
use vstd::prelude::*;
use vstd::seq_lib::group_to_multiset_ensures;

verus! {

/// Smallest value that counts as a success.
pub const SUCCESS_MIN: u64 = 6;

/// The values of a sequence of `u64`, as mathematical integers.
pub open spec fn wide(s: Seq<u64>) -> Seq<int> {
    s.map_values(|v: u64| v as int)
}

/// How many times `v` occurs in `s`.
pub open spec fn count_in(s: Seq<int>, v: int) -> nat
    decreases s.len(),
{
    if s.len() == 0 {
        0
    } else {
        count_in(s.drop_last(), v) + if s.last() == v {
            1nat
        } else {
            0nat
        }
    }
}

/// The distinct values of `s`, in the order of their first occurrence.
pub open spec fn distinct_values(s: Seq<int>) -> Seq<int>
    decreases s.len(),
{
    if s.len() == 0 {
        Seq::empty()
    } else {
        let p = distinct_values(s.drop_last());
        if p.contains(s.last()) {
            p
        } else {
            p.push(s.last())
        }
    }
}

/// One round of fusing: each distinct value `v` occurring `k` times
/// becomes the single value `v + k / 2`.
pub open spec fn collapse(s: Seq<int>) -> Seq<int> {
    distinct_values(s).map_values(|v: int| v + count_in(s, v) / 2)
}

/// Rounds of fusing, repeated until no value occurs twice.
pub open spec fn settle(s: Seq<int>) -> Seq<int>
    decreases s.len(),
{
    if distinct_values(s).len() < s.len() {
        settle(collapse(s))
    } else {
        s
    }
}

/// The successes of a pool, in pool order.
pub open spec fn successes(s: Seq<int>) -> Seq<int>
    decreases s.len(),
{
    if s.len() == 0 {
        Seq::empty()
    } else {
        let p = successes(s.drop_last());
        if s.last() >= SUCCESS_MIN {
            p.push(s.last())
        } else {
            p
        }
    }
}

/// The largest value of a non-empty sequence.
pub open spec fn max_of(s: Seq<int>) -> int
    decreases s.len(),
{
    if s.len() <= 1 {
        if s.len() == 1 {
            s[0]
        } else {
            0
        }
    } else {
        let m = max_of(s.drop_last());
        if s.last() > m {
            s.last()
        } else {
            m
        }
    }
}

/// Some value of `f` other than `top` comes within one of it, so that the
/// runner-up is not more than one below `top`.
pub open spec fn near_tie(f: Seq<int>, top: int) -> bool {
    exists|i: int| 0 <= i < f.len() && f[i] != top && top <= f[i] + 1
}

/// The outcome of a bonused pool, in half points.
pub open spec fn outcome(pool: Seq<int>) -> int {
    let high = successes(pool);
    if high.len() == 0 {
        2 * max_of(pool)
    } else {
        let f = settle(high);
        let top = max_of(f);
        if near_tie(f, top) {
            2 * top + 1
        } else {
            2 * top
        }
    }
}

proof fn lemma_distinct_contains(s: Seq<int>, v: int)
    ensures
        distinct_values(s).contains(v) <==> s.contains(v),
        s.contains(v) <==> count_in(s, v) > 0,
        distinct_values(s).len() <= s.len(),
    decreases s.len(),
{
    if s.len() > 0 {
        let p = s.drop_last();
        lemma_distinct_contains(p, v);
        if p.contains(v) {
            let i = choose|i: int| 0 <= i < p.len() && p[i] == v;
            assert(s[i] == v);
        }
        if s.contains(v) && s.last() != v {
            let i = choose|i: int| 0 <= i < s.len() && s[i] == v;
            assert(p[i] == v);
        }
        if s.last() == v {
            assert(s[s.len() - 1] == v);
        }
        let dp = distinct_values(p);
        if !dp.contains(s.last()) {
            if dp.push(s.last()).contains(v) && v != s.last() {
                let i = choose|i: int| 0 <= i < dp.push(s.last()).len() && dp.push(s.last())[i] == v;
                assert(dp[i] == v);
            }
            if dp.contains(v) {
                let i = choose|i: int| 0 <= i < dp.len() && dp[i] == v;
                assert(dp.push(s.last())[i] == v);
            }
            assert(dp.push(s.last())[dp.len() as int] == s.last());
        }
    }
}

/// A value occurring `k` times leaves at most `len - k + 1` distinct values.
proof fn lemma_count_and_distinct(s: Seq<int>, v: int)
    requires
        s.contains(v),
    ensures
        count_in(s, v) + distinct_values(s).len() <= s.len() + 1,
    decreases s.len(),
{
    let p = s.drop_last();
    lemma_distinct_contains(p, v);
    lemma_distinct_contains(p, s.last());
    lemma_distinct_contains(s, v);
    if p.contains(v) {
        lemma_count_and_distinct(p, v);
    } else {
        let i = choose|i: int| 0 <= i < s.len() && s[i] == v;
        if i < p.len() {
            assert(p[i] == v);
        }
    }
}

fn count_value(s: &Vec<u64>, v: u64) -> (r: usize)
    ensures
        r == count_in(wide(s@), v as int),
{
    let mut r: usize = 0;
    let mut i: usize = 0;
    while i < s.len()
        invariant
            i <= s@.len(),
            r == count_in(wide(s@).subrange(0, i as int), v as int),
            r <= i,
        decreases s@.len() - i,
    {
        assert(wide(s@).subrange(0, i + 1).drop_last() =~= wide(s@).subrange(0, i as int));
        if s[i] == v {
            r += 1;
        }
        i += 1;
    }
    assert(wide(s@).subrange(0, i as int) =~= wide(s@));
    r
}

fn contains_value(s: &Vec<u64>, v: u64) -> (r: bool)
    ensures
        r == wide(s@).contains(v as int),
{
    let mut i: usize = 0;
    while i < s.len()
        invariant
            i <= s@.len(),
            forall|j: int| 0 <= j < i ==> s@[j] != v,
        decreases s@.len() - i,
    {
        if s[i] == v {
            assert(wide(s@)[i as int] == v);
            return true;
        }
        i += 1;
    }
    false
}

fn distinct(s: &Vec<u64>) -> (d: Vec<u64>)
    ensures
        wide(d@) == distinct_values(wide(s@)),
{
    let mut d: Vec<u64> = Vec::new();
    let mut i: usize = 0;
    while i < s.len()
        invariant
            i <= s@.len(),
            wide(d@) == distinct_values(wide(s@).subrange(0, i as int)),
        decreases s@.len() - i,
    {
        assert(wide(s@).subrange(0, i + 1).drop_last() =~= wide(s@).subrange(0, i as int));
        let v = s[i];
        if !contains_value(&d, v) {
            d.push(v);
            assert(wide(d@) =~= distinct_values(wide(s@).subrange(0, i as int)).push(v as int));
        }
        i += 1;
    }
    assert(wide(s@).subrange(0, i as int) =~= wide(s@));
    d
}

/// `s` holds no value above `bound - s.len()`.
pub open spec fn within(s: Seq<int>, bound: int) -> bool {
    forall|i: int| 0 <= i < s.len() ==> s[i] + s.len() <= bound
}

fn collapse_with(s: &Vec<u64>, d: &Vec<u64>, Ghost(bound): Ghost<int>) -> (r: Vec<u64>)
    requires
        wide(d@) == distinct_values(wide(s@)),
        within(wide(s@), bound),
        bound <= u64::MAX,
    ensures
        wide(r@) == collapse(wide(s@)),
        within(wide(r@), bound),
{
    let mut r: Vec<u64> = Vec::new();
    let mut i: usize = 0;
    proof {
        lemma_distinct_contains(wide(s@), 0);
    }
    while i < d.len()
        invariant
            i <= d@.len(),
            r@.len() == i,
            wide(d@) == distinct_values(wide(s@)),
            d@.len() <= s@.len(),
            within(wide(s@), bound),
            bound <= u64::MAX,
            forall|j: int|
                0 <= j < i ==> r@[j] == d@[j] + count_in(wide(s@), d@[j] as int) / 2,
            forall|j: int| 0 <= j < i ==> r@[j] + d@.len() <= bound,
        decreases d@.len() - i,
    {
        let v = d[i];
        let k = count_value(s, v);
        proof {
            let w = wide(s@);
            assert(wide(d@)[i as int] == v);
            lemma_distinct_contains(w, v as int);
            lemma_count_and_distinct(w, v as int);
            let j = choose|j: int| 0 <= j < w.len() && w[j] == v;
            assert(v + w.len() <= bound);
        }
        r.push(v + (k / 2) as u64);
        i += 1;
    }
    assert(wide(r@) =~= collapse(wide(s@)));
    r
}

fn max_value(s: &Vec<u64>) -> (r: u64)
    requires
        s@.len() > 0,
    ensures
        r == max_of(wide(s@)),
        exists|j: int| 0 <= j < s@.len() && r == s@[j],
{
    let mut r: u64 = s[0];
    let mut i: usize = 1;
    assert(wide(s@).subrange(0, 1).len() == 1);
    while i < s.len()
        invariant
            1 <= i <= s@.len(),
            r == max_of(wide(s@).subrange(0, i as int)),
            exists|j: int| 0 <= j < i && r == s@[j],
        decreases s@.len() - i,
    {
        assert(wide(s@).subrange(0, i + 1).drop_last() =~= wide(s@).subrange(0, i as int));
        if s[i] > r {
            r = s[i];
        }
        i += 1;
    }
    assert(wide(s@).subrange(0, i as int) =~= wide(s@));
    r
}

fn has_near_tie(f: &Vec<u64>, top: u64) -> (r: bool)
    ensures
        r == near_tie(wide(f@), top as int),
{
    let mut i: usize = 0;
    while i < f.len()
        invariant
            i <= f@.len(),
            forall|j: int| 0 <= j < i ==> !(f@[j] != top && top <= f@[j] + 1),
        decreases f@.len() - i,
    {
        if f[i] != top && (f[i] >= top || top - f[i] == 1) {
            assert(wide(f@)[i as int] == f@[i as int]);
            return true;
        }
        i += 1;
    }
    false
}

proof fn lemma_count_multiset(s: Seq<int>, v: int)
    ensures
        count_in(s, v) == s.to_multiset().count(v),
    decreases s.len(),
{
    broadcast use group_to_multiset_ensures, vstd::multiset::group_multiset_axioms;

    if s.len() > 0 {
        lemma_count_multiset(s.drop_last(), v);
        assert(s.drop_last().push(s.last()) =~= s);
    }
}

proof fn lemma_same_counts(a: Seq<int>, b: Seq<int>)
    requires
        forall|v: int| count_in(a, v) == count_in(b, v),
    ensures
        a.to_multiset() == b.to_multiset(),
{
    assert forall|v: int| a.to_multiset().count(v) == b.to_multiset().count(v) by {
        lemma_count_multiset(a, v);
        lemma_count_multiset(b, v);
    }
    assert(a.to_multiset() =~= b.to_multiset());
}

proof fn lemma_contains_multiset(a: Seq<int>, b: Seq<int>, x: int)
    requires
        a.to_multiset() == b.to_multiset(),
    ensures
        a.contains(x) == b.contains(x),
        a.len() == b.len(),
{
    broadcast use group_to_multiset_ensures;

    vstd::seq_lib::to_multiset_contains(a, x);
    vstd::seq_lib::to_multiset_contains(b, x);
    vstd::seq_lib::to_multiset_len(a);
    vstd::seq_lib::to_multiset_len(b);
}

proof fn lemma_map_multiset<A>(a: Seq<A>, b: Seq<A>, f: spec_fn(A) -> int)
    requires
        a.to_multiset() == b.to_multiset(),
    ensures
        a.map_values(f).to_multiset() == b.map_values(f).to_multiset(),
    decreases a.len(),
{
    broadcast use group_to_multiset_ensures, vstd::multiset::group_multiset_axioms;

    assert(a.len() == a.to_multiset().len());
    assert(b.len() == b.to_multiset().len());
    if a.len() == 0 {
        assert(a =~= b);
    } else {
        let l = a.last();
        let a1 = a.drop_last();
        assert(a1.push(l) =~= a);
        assert(a.contains(l)) by {
            assert(a[a.len() - 1] == l);
        }
        assert(b.to_multiset().count(l) > 0);
        let j = choose|j: int| 0 <= j < b.len() && b[j] == l;
        let b1 = b.remove(j);
        assert(a1.to_multiset() =~= b1.to_multiset());
        lemma_map_multiset(a1, b1, f);
        assert(a.map_values(f) =~= a1.map_values(f).push(f(l)));
        assert(b.map_values(f).remove(j) =~= b1.map_values(f));
        assert(b.map_values(f)[j] == f(l));
        assert(b.map_values(f).to_multiset() =~= b1.map_values(f).to_multiset().insert(f(l)));
    }
}

proof fn lemma_distinct_counts(s: Seq<int>, v: int)
    ensures
        count_in(distinct_values(s), v) == if s.contains(v) {
            1nat
        } else {
            0nat
        },
    decreases s.len(),
{
    if s.len() > 0 {
        let s1 = s.drop_last();
        let l = s.last();
        lemma_distinct_counts(s1, v);
        lemma_distinct_contains(s1, l);
        lemma_distinct_contains(s1, v);
        lemma_distinct_contains(s, v);
        let p = distinct_values(s1);
        if !p.contains(l) {
            assert(p.push(l).drop_last() =~= p);
        }
        assert(s[s.len() - 1] == l);
    }
}

proof fn lemma_distinct_multiset(a: Seq<int>, b: Seq<int>)
    requires
        a.to_multiset() == b.to_multiset(),
    ensures
        distinct_values(a).to_multiset() == distinct_values(b).to_multiset(),
{
    broadcast use group_to_multiset_ensures;

    assert forall|v: int|
        count_in(distinct_values(a), v) == count_in(distinct_values(b), v) by {
        lemma_distinct_counts(a, v);
        lemma_distinct_counts(b, v);
        lemma_contains_multiset(a, b, v);
    }
    lemma_same_counts(distinct_values(a), distinct_values(b));
}

proof fn lemma_collapse_multiset(a: Seq<int>, b: Seq<int>)
    requires
        a.to_multiset() == b.to_multiset(),
    ensures
        collapse(a).to_multiset() == collapse(b).to_multiset(),
{
    let fa = |v: int| v + count_in(a, v) / 2;
    let fb = |v: int| v + count_in(b, v) / 2;
    let db = distinct_values(b);
    assert forall|v: int| count_in(a, v) == count_in(b, v) by {
        lemma_count_multiset(a, v);
        lemma_count_multiset(b, v);
    }
    assert(db.map_values(fb) =~= db.map_values(fa));
    lemma_distinct_multiset(a, b);
    lemma_map_multiset(distinct_values(a), db, fa);
}

proof fn lemma_settle_multiset(a: Seq<int>, b: Seq<int>)
    requires
        a.to_multiset() == b.to_multiset(),
    ensures
        settle(a).to_multiset() == settle(b).to_multiset(),
    decreases a.len(),
{
    broadcast use group_to_multiset_ensures;

    lemma_distinct_multiset(a, b);
    assert(a.len() == a.to_multiset().len());
    assert(b.len() == b.to_multiset().len());
    assert(distinct_values(a).len() == distinct_values(a).to_multiset().len());
    assert(distinct_values(b).len() == distinct_values(b).to_multiset().len());
    if distinct_values(a).len() < a.len() {
        lemma_collapse_multiset(a, b);
        lemma_settle_multiset(collapse(a), collapse(b));
    }
}

proof fn lemma_successes_counts(s: Seq<int>, v: int)
    ensures
        count_in(successes(s), v) == if v >= SUCCESS_MIN {
            count_in(s, v)
        } else {
            0
        },
    decreases s.len(),
{
    if s.len() > 0 {
        lemma_successes_counts(s.drop_last(), v);
        let p = successes(s.drop_last());
        assert(p.push(s.last()).drop_last() =~= p);
    }
}

proof fn lemma_successes_multiset(a: Seq<int>, b: Seq<int>)
    requires
        a.to_multiset() == b.to_multiset(),
    ensures
        successes(a).to_multiset() == successes(b).to_multiset(),
{
    assert forall|v: int| count_in(successes(a), v) == count_in(successes(b), v) by {
        lemma_successes_counts(a, v);
        lemma_successes_counts(b, v);
        lemma_count_multiset(a, v);
        lemma_count_multiset(b, v);
    }
    lemma_same_counts(successes(a), successes(b));
}

proof fn lemma_max_of(s: Seq<int>)
    requires
        s.len() > 0,
    ensures
        s.contains(max_of(s)),
        forall|i: int| 0 <= i < s.len() ==> s[i] <= max_of(s),
    decreases s.len(),
{
    if s.len() > 1 {
        let p = s.drop_last();
        lemma_max_of(p);
        let j = choose|j: int| 0 <= j < p.len() && p[j] == max_of(p);
        assert(s[j] == p[j]);
        assert(s[s.len() - 1] == s.last());
        assert forall|i: int| 0 <= i < s.len() - 1 implies s[i] <= max_of(s) by {
            assert(s[i] == p[i]);
        }
    } else {
        assert(s[0] == max_of(s));
    }
}

proof fn lemma_max_multiset(a: Seq<int>, b: Seq<int>)
    requires
        a.to_multiset() == b.to_multiset(),
    ensures
        max_of(a) == max_of(b),
{
    broadcast use group_to_multiset_ensures;

    assert(a.len() == a.to_multiset().len());
    assert(b.len() == b.to_multiset().len());
    if a.len() == 0 {
        assert(a =~= b);
    } else {
        lemma_max_of(a);
        lemma_max_of(b);
        lemma_contains_multiset(a, b, max_of(a));
        lemma_contains_multiset(a, b, max_of(b));
    }
}

proof fn lemma_near_tie_multiset(a: Seq<int>, b: Seq<int>, top: int)
    requires
        a.to_multiset() == b.to_multiset(),
    ensures
        near_tie(a, top) == near_tie(b, top),
{
    broadcast use group_to_multiset_ensures;

    if near_tie(a, top) {
        let i = choose|i: int| 0 <= i < a.len() && a[i] != top && top <= a[i] + 1;
        assert(a.contains(a[i]));
        lemma_contains_multiset(a, b, a[i]);
    }
    if near_tie(b, top) {
        let i = choose|i: int| 0 <= i < b.len() && b[i] != top && top <= b[i] + 1;
        assert(b.contains(b[i]));
        lemma_contains_multiset(a, b, b[i]);
    }
}

/// The outcome depends on the pool as a multiset only: reordering the
/// dice never changes it.
pub proof fn lemma_outcome_permutation(a: Seq<int>, b: Seq<int>)
    requires
        a.to_multiset() == b.to_multiset(),
    ensures
        outcome(a) == outcome(b),
{
    broadcast use group_to_multiset_ensures;

    lemma_successes_multiset(a, b);
    let sa = successes(a);
    let sb = successes(b);
    assert(sa.len() == sa.to_multiset().len());
    assert(sb.len() == sb.to_multiset().len());
    lemma_max_multiset(a, b);
    lemma_settle_multiset(sa, sb);
    lemma_max_multiset(settle(sa), settle(sb));
    lemma_near_tie_multiset(settle(sa), settle(sb), max_of(settle(sa)));
}

/// The outcome of a pool of `u32` values depends on their multiset only:
/// reordering the dice never changes it.
pub proof fn lemma_dice_order_irrelevant(a: Seq<u32>, b: Seq<u32>)
    requires
        a.to_multiset() == b.to_multiset(),
    ensures
        outcome(crate::ints(a)) == outcome(crate::ints(b)),
{
    lemma_map_multiset(a, b, |v: u32| v as int);
    lemma_outcome_permutation(crate::ints(a), crate::ints(b));
}

proof fn lemma_no_successes(s: Seq<int>)
    requires
        forall|i: int| 0 <= i < s.len() ==> s[i] < SUCCESS_MIN,
    ensures
        successes(s).len() == 0,
    decreases s.len(),
{
    if s.len() > 0 {
        assert(s[s.len() - 1] < SUCCESS_MIN);
        assert forall|i: int| 0 <= i < s.len() - 1 implies s.drop_last()[i] < SUCCESS_MIN by {
            assert(s.drop_last()[i] == s[i]);
        }
        lemma_no_successes(s.drop_last());
    }
}

/// A pool without successes scores its highest value, and nothing more.
pub proof fn lemma_all_low_scores_max(pool: Seq<int>)
    requires
        forall|i: int| 0 <= i < pool.len() ==> pool[i] < SUCCESS_MIN,
    ensures
        outcome(pool) == 2 * max_of(pool),
{
    lemma_no_successes(pool);
}

/// Reduces a bonused pool to its outcome, in half points.
pub fn calc_dices_value(dices: &Vec<u32>) -> (r: u64)
    requires
        dices@.len() > 0,
        dices@.len() <= u32::MAX,
    ensures
        r == outcome(crate::ints(dices@)),
        (forall|i: int| 0 <= i < dices@.len() ==> dices@[i] < SUCCESS_MIN) ==> r == 2 * max_of(
            crate::ints(dices@),
        ),
{
    let ghost pool = crate::ints(dices@);
    let mut all: Vec<u64> = Vec::new();
    let mut highs: Vec<u64> = Vec::new();
    let mut i: usize = 0;
    while i < dices.len()
        invariant
            pool == crate::ints(dices@),
            i <= dices@.len(),
            wide(all@) == pool.subrange(0, i as int),
            wide(highs@) == successes(pool.subrange(0, i as int)),
            highs@.len() <= i,
            forall|j: int| 0 <= j < highs@.len() ==> highs@[j] <= u32::MAX,
            (forall|j: int| 0 <= j < i ==> dices@[j] < SUCCESS_MIN) ==> highs@.len() == 0,
            forall|j: int| 0 <= j < all@.len() ==> all@[j] <= u32::MAX,
        decreases dices@.len() - i,
    {
        assert(pool.subrange(0, i + 1).drop_last() =~= pool.subrange(0, i as int));
        let v = dices[i] as u64;
        all.push(v);
        if v >= SUCCESS_MIN {
            highs.push(v);
            assert(wide(highs@) =~= successes(pool.subrange(0, i as int)).push(v as int));
        }
        assert(wide(all@) =~= pool.subrange(0, i + 1));
        i += 1;
    }
    assert(pool.subrange(0, i as int) =~= pool);
    if highs.len() == 0 {
        let m = max_value(&all);
        2 * m
    } else {
        let ghost bound: int = u32::MAX + dices@.len();
        let mut cur: Vec<u64> = highs;
        let mut d = distinct(&cur);
        proof {
            lemma_distinct_contains(wide(cur@), 0);
        }
        while d.len() < cur.len()
            invariant
                pool == crate::ints(dices@),
                bound == u32::MAX + dices@.len(),
                dices@.len() <= u32::MAX,
                cur@.len() > 0,
                wide(d@) == distinct_values(wide(cur@)),
                settle(wide(cur@)) == settle(successes(pool)),
                within(wide(cur@), bound),
            decreases cur@.len(),
        {
            cur = collapse_with(&cur, &d, Ghost(bound));
            proof {
                let w = wide(cur@);
                assert(w[0] == cur@[0]);
            }
            d = distinct(&cur);
            proof {
                let w = wide(cur@);
                lemma_distinct_contains(w, w[0]);
                lemma_distinct_contains(w, 0);
            }
        }
        let top = max_value(&cur);
        proof {
            let j = choose|j: int| 0 <= j < cur@.len() && top == cur@[j];
            assert(wide(cur@)[j] == top);
        }
        if has_near_tie(&cur, top) {
            2 * top + 1
        } else {
            2 * top
        }
    }
}

} // verus!
