//! Dice sources: a random one backed by the thread-local generator of
//! `rand`, and an exhaustive one that walks every pool in order.
use vstd::prelude::*;

use crate::pool::{
    add_bonuses_by_skill, bonused_count, get_dices_amount_by_skill, pool_size, with_bonuses,
};

verus! {

/// Highest face of a die.
pub const DIE_FACES: u32 = 6;

#[verifier::external_type_specification]
#[verifier::external_body]
pub struct ExThreadRng(rand::rngs::ThreadRng);

/// Relies on rand::thread_rng: a handle on the thread-local generator.
pub assume_specification[ rand::thread_rng ]() -> rand::rngs::ThreadRng;

/// Relies on rand::Rng::gen_range over an inclusive range: a value drawn
/// between `low` and `high`, both included (it panics on an empty range).
#[verifier::external_body]
fn draw_between(rng: &mut rand::rngs::ThreadRng, low: u32, high: u32) -> (r: u32)
    requires
        low <= high,
    ensures
        low <= r <= high,
{
    rand::Rng::gen_range(rng, low..=high)
}

/// Every value is a die face.
pub open spec fn all_faces(s: Seq<u32>) -> bool {
    forall|i: int| 0 <= i < s.len() ==> 1 <= #[trigger] s[i] <= DIE_FACES
}

fn draw_pool(rng: &mut rand::rngs::ThreadRng, amount: u32) -> (r: Vec<u32>)
    ensures
        r@.len() == amount,
        all_faces(r@),
{
    let mut r: Vec<u32> = Vec::new();
    let mut i: u32 = 0;
    while i < amount
        invariant
            i <= amount,
            r@.len() == i,
            all_faces(r@),
        decreases amount - i,
    {
        r.push(draw_between(rng, 1, DIE_FACES));
        i += 1;
    }
    r
}

/// Rolls `amount` dice.
pub fn roll_dices(amount: u32) -> (r: Vec<u32>)
    ensures
        r@.len() == amount,
        all_faces(r@),
{
    let mut rng = rand::thread_rng();
    draw_pool(&mut rng, amount)
}

/// Rolls the pool of a skill rating and adds its bonuses.
pub fn roll_dices_by_skill(skill: u32) -> (r: Vec<u32>)
    ensures
        exists|raw: Seq<u32>|
            raw.len() == pool_size(skill) && all_faces(raw) && crate::ints(r@) == with_bonuses(
                raw,
                skill,
            ),
{
    let amount = get_dices_amount_by_skill(skill);
    let rolled = roll_dices(amount);
    let ghost raw = rolled@;
    let r = add_bonuses_by_skill(rolled, skill);
    assert(raw.len() == pool_size(skill) && all_faces(raw) && crate::ints(r@) == with_bonuses(
        raw,
        skill,
    ));
    r
}

/// An endless source of random pools of a fixed size.
pub struct RandomDicesGenerator {
    amount: u32,
    rng: rand::rngs::ThreadRng,
}

impl RandomDicesGenerator {
    /// Number of dice in each pool.
    pub closed spec fn size(&self) -> nat {
        self.amount as nat
    }

    pub fn new(amount: u32) -> (r: Self)
        ensures
            r.size() == amount,
    {
        RandomDicesGenerator { amount, rng: rand::thread_rng() }
    }

    /// Number of dice in each pool.
    pub fn amount(&self) -> (r: u32)
        ensures
            r == self.size(),
    {
        self.amount
    }

    /// The next pool; there always is one.
    pub fn next(&mut self) -> (r: Option<Vec<u32>>)
        ensures
            final(self).size() == old(self).size(),
            r is Some,
            r matches Some(v) ==> v@.len() == old(self).size() && all_faces(v@),
    {
        Some(draw_pool(&mut self.rng, self.amount))
    }
}

/// `6` to the power `k`: how many pools of `k` dice there are.
pub open spec fn pow6(k: nat) -> int
    decreases k,
{
    if k == 0 {
        1
    } else {
        6 * pow6((k - 1) as nat)
    }
}

/// Position of a pool in the order of the exhaustive walk: the pool read as
/// a base-six number whose digits are the faces minus one.
pub open spec fn rank(s: Seq<u32>) -> int
    decreases s.len(),
{
    if s.len() == 0 {
        0
    } else {
        rank(s.drop_last()) * 6 + (s.last() - 1)
    }
}

/// `k` copies of `c`.
pub open spec fn repeat(c: u32, k: nat) -> Seq<u32> {
    Seq::new(k, |i: int| c)
}

proof fn lemma_rank_concat(a: Seq<u32>, b: Seq<u32>)
    ensures
        rank(a + b) == rank(a) * pow6(b.len()) + rank(b),
    decreases b.len(),
{
    if b.len() == 0 {
        assert(a + b =~= a);
    } else {
        let b1 = b.drop_last();
        assert((a + b).drop_last() =~= a + b1);
        assert((a + b).last() == b.last());
        lemma_rank_concat(a, b1);
        let x = rank(a);
        let p = pow6(b1.len());
        let y = rank(b1);
        assert((x * p + y) * 6 == x * (6 * p) + y * 6) by (nonlinear_arith);
    }
}

proof fn lemma_rank_repeat(c: u32, k: nat)
    requires
        c == 1 || c == 6,
    ensures
        c == 1 ==> rank(repeat(c, k)) == 0,
        c == 6 ==> rank(repeat(c, k)) == pow6(k) - 1,
    decreases k,
{
    if k > 0 {
        assert(repeat(c, k).drop_last() =~= repeat(c, (k - 1) as nat));
        lemma_rank_repeat(c, (k - 1) as nat);
    }
}

proof fn lemma_rank_bounds(s: Seq<u32>)
    requires
        all_faces(s),
    ensures
        0 <= rank(s) < pow6(s.len()),
    decreases s.len(),
{
    if s.len() > 0 {
        let p = s.drop_last();
        assert(all_faces(p)) by {
            assert forall|i: int| 0 <= i < p.len() implies 1 <= #[trigger] p[i] <= DIE_FACES by {
                assert(p[i] == s[i]);
            }
        }
        lemma_rank_bounds(p);
        assert(1 <= s[s.len() - 1] <= 6);
    }
}

/// Walks every pool of a fixed size once, in increasing order of `rank`:
/// `[1, ..., 1, 1]`, `[1, ..., 1, 2]`, ..., `[6, ..., 6, 6]`.
pub struct SequinentalDicesGenerator {
    dices: Vec<u32>,
}

impl SequinentalDicesGenerator {
    /// The pool last handed out; before the first one, the pool one step
    /// ahead of `[1, ..., 1]`, whose last die shows 0.
    pub closed spec fn current(&self) -> Seq<u32> {
        self.dices@
    }

    /// Every die shows a face, but the last one, which may also show 0.
    pub open spec fn well_formed(&self) -> bool {
        let s = self.current();
        &&& s.len() >= 1
        &&& forall|i: int| 0 <= i < s.len() - 1 ==> 1 <= #[trigger] s[i] <= DIE_FACES
        &&& s.last() <= DIE_FACES
    }

    /// A walk over the pools of `amount` dice, none of them handed out yet.
    pub fn new(amount: u32) -> (r: Self)
        requires
            amount >= 1,
        ensures
            r.well_formed(),
            r.current().len() == amount,
            rank(r.current()) == -1,
    {
        let mut dices: Vec<u32> = Vec::new();
        let mut i: u32 = 0;
        while i < amount
            invariant
                i <= amount,
                dices@ == repeat(1, i as nat),
            decreases amount - i,
        {
            dices.push(1);
            assert(dices@ =~= repeat(1, (i + 1) as nat));
            i += 1;
        }
        let last: usize = (amount - 1) as usize;
        dices.set(last, 0);
        proof {
            let s = dices@;
            assert(s.drop_last() =~= repeat(1, (amount - 1) as nat));
            lemma_rank_repeat(1, (amount - 1) as nat);
        }
        SequinentalDicesGenerator { dices }
    }

    /// The next pool of the walk, or `None` once `[6, ..., 6]` has been
    /// handed out; the walk then stays where it is.
    pub fn next(&mut self) -> (r: Option<Vec<u32>>)
        requires
            old(self).well_formed(),
        ensures
            final(self).well_formed(),
            final(self).current().len() == old(self).current().len(),
            rank(old(self).current()) + 1 < pow6(old(self).current().len()) ==> {
                &&& r matches Some(v)
                &&& v@ == final(self).current()
                &&& all_faces(v@)
                &&& rank(v@) == rank(old(self).current()) + 1
            },
            rank(old(self).current()) + 1 >= pow6(old(self).current().len()) ==> {
                &&& r is None
                &&& final(self).current() == old(self).current()
            },
    {
        let n = self.dices.len();
        let mut i: usize = n;
        while i > 0 && self.dices[i - 1] >= DIE_FACES
            invariant
                i <= n,
                n == self.dices@.len(),
                forall|j: int| i <= j < n ==> self.dices@[j] >= DIE_FACES,
            decreases i,
        {
            i -= 1;
        }
        let ghost s = self.dices@;
        if i == 0 {
            proof {
                assert(s =~= repeat(6, n as nat));
                lemma_rank_repeat(6, n as nat);
            }
            return None;
        }
        let idx: usize = i - 1;
        let d = self.dices[idx];
        self.dices.set(idx, d + 1);
        let mut j: usize = i;
        while j < n
            invariant
                i <= j <= n,
                idx + 1 == i,
                n == self.dices@.len(),
                forall|k: int| 0 <= k < idx ==> self.dices@[k] == s[k],
                self.dices@[idx as int] == d + 1,
                forall|k: int| i <= k < j ==> self.dices@[k] == 1,
            decreases n - j,
        {
            self.dices.set(j, 1);
            j += 1;
        }
        proof {
            let t = self.dices@;
            let m = (n - i) as nat;
            let pre = s.subrange(0, idx as int);
            assert(s =~= (pre.push(d)) + repeat(6, m));
            assert(t =~= (pre.push((d + 1) as u32)) + repeat(1, m));
            assert(pre.push(d).drop_last() =~= pre);
            assert(pre.push((d + 1) as u32).drop_last() =~= pre);
            lemma_rank_concat(pre.push(d), repeat(6, m));
            lemma_rank_concat(pre.push((d + 1) as u32), repeat(1, m));
            lemma_rank_repeat(6, m);
            lemma_rank_repeat(1, m);
            let x = rank(pre);
            let p = pow6(m);
            assert((x * 6 + d) * p == (x * 6 + d - 1) * p + p) by (nonlinear_arith);
            assert(all_faces(t));
            lemma_rank_bounds(t);
        }
        Some(self.dices.clone())
    }
}

} // verus!
