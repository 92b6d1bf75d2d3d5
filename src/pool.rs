//! Pool sizing and the per-die bonuses that a skill rating grants.
use vstd::prelude::*;

verus! {

/// Most dice a pool ever holds; skill beyond it turns into bonuses.
pub const MAX_POOL: u32 = 10;

/// Number of dice rolled for a skill rating.
pub open spec fn pool_size(skill: u32) -> nat {
    if skill <= 10 {
        skill as nat
    } else {
        10
    }
}

/// How many dice, from the front of the pool, receive the larger bonus.
pub open spec fn bonused_count(skill: u32) -> nat {
    if skill > 10 {
        ((skill - 10) % 10) as nat
    } else {
        0
    }
}

/// The larger bonus.
pub open spec fn high_bonus(skill: u32) -> nat {
    (skill / 10) as nat
}

/// The smaller bonus, one less than the larger one but never negative.
pub open spec fn low_bonus(skill: u32) -> nat {
    if skill / 10 >= 1 {
        (skill / 10 - 1) as nat
    } else {
        0
    }
}

/// The bonus added to the die at position `i`.
pub open spec fn bonus_at(skill: u32, i: int) -> nat {
    if i < bonused_count(skill) {
        high_bonus(skill)
    } else {
        low_bonus(skill)
    }
}

/// A pool after the bonuses of `skill` have been added.
pub open spec fn with_bonuses(raw: Seq<u32>, skill: u32) -> Seq<int> {
    Seq::new(raw.len(), |i: int| raw[i] + bonus_at(skill, i))
}

/// Every bonused value still fits a `u32`.
pub open spec fn bonuses_fit(raw: Seq<u32>, skill: u32) -> bool {
    forall|i: int| 0 <= i < raw.len() ==> raw[i] + bonus_at(skill, i) <= u32::MAX
}

/// Number of dice rolled for a skill rating: the rating itself, capped at ten.
pub fn get_dices_amount_by_skill(skill: u32) -> (r: u32)
    ensures
        r == pool_size(skill),
        skill <= 10 ==> r == skill,
        skill > 10 ==> r == MAX_POOL,
{
    if skill < MAX_POOL {
        skill
    } else {
        MAX_POOL
    }
}

/// Adds the skill's bonuses to a rolled pool: the larger bonus to the first
/// `bonused_count(skill)` dice, the smaller one to the rest. A pool shorter
/// than that prefix gets the larger bonus throughout.
pub fn add_bonuses_by_skill(rolled_dices: Vec<u32>, skill: u32) -> (r: Vec<u32>)
    requires
        bonuses_fit(rolled_dices@, skill),
    ensures
        crate::ints(r@) == with_bonuses(rolled_dices@, skill),
        r@.len() == rolled_dices@.len(),
        skill <= 10 ==> r@ == rolled_dices@,
        10 < skill < 20 ==> forall|i: int|
            0 <= i < r@.len() ==> r@[i] == rolled_dices@[i] + if i < skill - 10 {
                1int
            } else {
                0int
            },
        skill == 20 ==> forall|i: int| 0 <= i < r@.len() ==> r@[i] == rolled_dices@[i] + 1,
{
    let bonus_dices_amount: usize = if skill > MAX_POOL {
        ((skill - MAX_POOL) % 10) as usize
    } else {
        0
    };
    let high: u32 = skill / 10;
    let low: u32 = if high >= 1 {
        high - 1
    } else {
        0
    };
    let mut out: Vec<u32> = Vec::with_capacity(rolled_dices.len());
    let mut i: usize = 0;
    while i < rolled_dices.len()
        invariant
            bonus_dices_amount == bonused_count(skill),
            high == high_bonus(skill),
            low == low_bonus(skill),
            i <= rolled_dices@.len(),
            out@.len() == i,
            bonuses_fit(rolled_dices@, skill),
            forall|j: int| 0 <= j < i ==> out@[j] == rolled_dices@[j] + bonus_at(skill, j),
        decreases rolled_dices@.len() - i,
    {
        let bonus: u32 = if i < bonus_dices_amount {
            high
        } else {
            low
        };
        out.push(rolled_dices[i] + bonus);
        i += 1;
    }
    assert(crate::ints(out@) =~= with_bonuses(rolled_dices@, skill));
    if skill <= 10 {
        assert(out@ =~= rolled_dices@);
    }
    out
}

} // verus!
