//! The Monte Carlo estimate of how often a skill meets a difficulty, and
//! the grid of estimates over ranges of skills and difficulties.
use vstd::prelude::*;

use crate::dice::{all_faces, RandomDicesGenerator};
use crate::outcome::{calc_dices_value, outcome};
use crate::pool::{add_bonuses_by_skill, get_dices_amount_by_skill, pool_size, with_bonuses};

verus! {

/// Scale of a table cell: hundredths of a percent.
pub const FULL_SCALE: u64 = 10000;

/// A rolled pool of `skill` beats `difficulty` (both in half points).
pub open spec fn wins(raw: Seq<u32>, skill: u32, difficulty: u64) -> bool {
    outcome(with_bonuses(raw, skill)) >= difficulty
}

/// Whether a rolled pool, once the bonuses of `skill` are added, reaches
/// `difficulty`, given in half points.
pub fn is_win(rolled_dices: &Vec<u32>, skill: u32, difficulty: u64) -> (r: bool)
    requires
        1 <= skill,
        rolled_dices@.len() == pool_size(skill),
        all_faces(rolled_dices@),
    ensures
        r == wins(rolled_dices@, skill, difficulty),
{
    let bonused = add_bonuses_by_skill(rolled_dices.clone(), skill);
    let value = calc_dices_value(&bonused);
    value >= difficulty
}

/// `pools` are `count` rolled pools of `skill`.
pub open spec fn valid_draws(pools: Seq<Seq<u32>>, skill: u32, count: nat) -> bool {
    &&& pools.len() == count
    &&& forall|k: int|
        0 <= k < pools.len() ==> (#[trigger] pools[k]).len() == pool_size(skill) && all_faces(
            pools[k],
        )
}

/// How many of `pools` reach `difficulty`.
pub open spec fn win_count(pools: Seq<Seq<u32>>, skill: u32, difficulty: u64) -> nat {
    pools.filter(|p: Seq<u32>| wins(p, skill, difficulty)).len()
}

/// `won` is the number of winners among some `attempts` rolled pools.
pub open spec fn possible_wins(skill: u32, difficulty: u64, attempts: u64, won: u64) -> bool {
    exists|pools: Seq<Seq<u32>>|
        #[trigger] valid_draws(pools, skill, attempts as nat) && won == win_count(
            pools,
            skill,
            difficulty,
        )
}

/// Draws `attempts` pools of `skill` and counts those that reach
/// `difficulty` (in half points).
pub fn count_wins(skill: u32, difficulty: u64, attempts: u64) -> (r: u64)
    requires
        1 <= skill,
    ensures
        r <= attempts,
        possible_wins(skill, difficulty, attempts, r),
{
    let mut source = RandomDicesGenerator::new(get_dices_amount_by_skill(skill));
    let mut won: u64 = 0;
    let mut n: u64 = 0;
    let ghost mut pools: Seq<Seq<u32>> = Seq::empty();
    proof {
        reveal(Seq::filter);
        assert(pools.filter(|p: Seq<u32>| wins(p, skill, difficulty)).len() == 0);
    }
    while n < attempts
        invariant
            source.size() == pool_size(skill),
            1 <= skill,
            won <= n <= attempts,
            valid_draws(pools, skill, n as nat),
            won == win_count(pools, skill, difficulty),
        decreases attempts - n,
    {
        let next = source.next();
        if let Some(pool) = next {
            let ghost before = pools;
            proof {
                pools = pools.push(pool@);
                assert(pools.drop_last() =~= before);
                reveal(Seq::filter);
            }
            if is_win(&pool, skill, difficulty) {
                won += 1;
            }
            proof {
                assert forall|k: int| 0 <= k < pools.len() implies (#[trigger] pools[k]).len()
                    == pool_size(skill) && all_faces(pools[k]) by {
                    if k < before.len() {
                        assert(pools[k] == before[k]);
                    }
                }
            }
        }
        n += 1;
    }
    won
}

/// A share of `total`, in hundredths of a percent, rounded down.
pub fn percent_hundredths(won: u64, total: u64) -> (r: u64)
    requires
        0 < total,
        won <= total,
    ensures
        r == (won * FULL_SCALE) as int / total as int,
        r <= FULL_SCALE,
{
    let scaled: u128 = won as u128 * 10000;
    let q: u128 = scaled / (total as u128);
    proof {
        assert(won * 10000 <= total * 10000) by (nonlinear_arith)
            requires
                won <= total,
        ;
        vstd::arithmetic::div_mod::lemma_div_is_ordered(won * 10000, total * 10000, total as int);
        vstd::arithmetic::div_mod::lemma_div_by_multiple(10000, total as int);
        assert(total * 10000 == 10000 * total) by (nonlinear_arith);
    }
    q as u64
}

/// Estimated chances over a grid: one row per difficulty, one column per
/// skill, each cell in hundredths of a percent.
pub struct ProbabilityTable {
    /// Skill of each column, ascending.
    pub skills: Vec<u32>,
    /// Difficulty of each row in half points, ascending.
    pub difficulties: Vec<u64>,
    /// `cells[row][column]`.
    pub cells: Vec<Vec<u64>>,
}

impl ProbabilityTable {
    /// One row per difficulty and one cell per skill in each row, every
    /// cell between 0 and 100 percent.
    pub open spec fn well_formed(&self) -> bool {
        &&& self.cells@.len() == self.difficulties@.len()
        &&& forall|i: int|
            0 <= i < self.cells@.len() ==> (#[trigger] self.cells@[i])@.len()
                == self.skills@.len()
        &&& forall|i: int, j: int|
            0 <= i < self.cells@.len() && 0 <= j < self.cells@[i]@.len() ==> #[trigger] self.cells@[i]@[j]
                <= FULL_SCALE
    }
}

/// `cell` is the share of winners, in hundredths of a percent rounded down,
/// among some `attempts` rolled pools of `skill` against `difficulty`.
pub open spec fn estimate_of(skill: u32, difficulty: u64, attempts: u64, cell: u64) -> bool {
    exists|won: u64|
        #[trigger] possible_wins(skill, difficulty, attempts, won) && cell == (won * FULL_SCALE) as int
            / attempts as int
}

/// The values `lo, lo + 1, ..., hi`.
pub open spec fn steps(lo: int, hi: int) -> Seq<int> {
    Seq::new((hi - lo + 1) as nat, |i: int| lo + i)
}

/// Estimates the chance of each skill in `skill_lo..=skill_hi` against each
/// difficulty in `difficulty_lo..=difficulty_hi` (half points), from
/// `attempts` pools per cell.
pub fn build_table(
    skill_lo: u32,
    skill_hi: u32,
    difficulty_lo: u64,
    difficulty_hi: u64,
    attempts: u64,
) -> (r: ProbabilityTable)
    requires
        1 <= skill_lo <= skill_hi < u32::MAX,
        difficulty_lo <= difficulty_hi < u64::MAX,
        0 < attempts,
    ensures
        r.well_formed(),
        forall|i: int, j: int|
            0 <= i < r.cells@.len() && 0 <= j < r.cells@[i]@.len() ==> estimate_of(
                r.skills@[j],
                r.difficulties@[i],
                attempts,
                #[trigger] r.cells@[i]@[j],
            ),
        r.skills@.map_values(|s: u32| s as int) == steps(skill_lo as int, skill_hi as int),
        r.difficulties@.map_values(|d: u64| d as int) == steps(
            difficulty_lo as int,
            difficulty_hi as int,
        ),
{
    let mut skills: Vec<u32> = Vec::new();
    let mut s: u32 = skill_lo;
    while s <= skill_hi
        invariant
            skill_lo <= s <= skill_hi + 1,
            skill_hi < u32::MAX,
            skills@.len() == s - skill_lo,
            forall|j: int| 0 <= j < skills@.len() ==> #[trigger] skills@[j] == skill_lo + j,
        decreases skill_hi + 1 - s,
    {
        skills.push(s);
        s += 1;
    }
    let mut difficulties: Vec<u64> = Vec::new();
    let mut cells: Vec<Vec<u64>> = Vec::new();
    let mut d: u64 = difficulty_lo;
    while d <= difficulty_hi
        invariant
            difficulty_lo <= d <= difficulty_hi + 1,
            difficulty_hi < u64::MAX,
            1 <= skill_lo,
            0 < attempts,
            difficulties@.len() == d - difficulty_lo,
            cells@.len() == difficulties@.len(),
            forall|j: int|
                0 <= j < difficulties@.len() ==> #[trigger] difficulties@[j] == difficulty_lo + j,
            forall|i: int| 0 <= i < cells@.len() ==> (#[trigger] cells@[i])@.len() == skills@.len(),
            forall|i: int, j: int|
                0 <= i < cells@.len() && 0 <= j < cells@[i]@.len() ==> #[trigger] cells@[i]@[j]
                    <= FULL_SCALE,
            forall|j: int| 0 <= j < skills@.len() ==> #[trigger] skills@[j] >= skill_lo,
            forall|i: int, j: int|
                0 <= i < cells@.len() && 0 <= j < cells@[i]@.len() ==> estimate_of(
                    skills@[j],
                    difficulties@[i],
                    attempts,
                    #[trigger] cells@[i]@[j],
                ),
        decreases difficulty_hi + 1 - d,
    {
        let mut row: Vec<u64> = Vec::new();
        let mut k: usize = 0;
        while k < skills.len()
            invariant
                k <= skills@.len(),
                row@.len() == k,
                1 <= skill_lo,
                0 < attempts,
                forall|j: int| 0 <= j < skills@.len() ==> #[trigger] skills@[j] >= skill_lo,
                forall|j: int| 0 <= j < row@.len() ==> #[trigger] row@[j] <= FULL_SCALE,
                forall|j: int|
                    0 <= j < row@.len() ==> estimate_of(skills@[j], d, attempts, #[trigger] row@[j]),
            decreases skills@.len() - k,
        {
            let won = count_wins(skills[k], d, attempts);
            let cell = percent_hundredths(won, attempts);
            assert(estimate_of(skills@[k as int], d, attempts, cell));
            row.push(cell);
            k += 1;
        }
        let ghost old_cells = cells@;
        let ghost old_difficulties = difficulties@;
        cells.push(row);
        difficulties.push(d);
        assert forall|i: int, j: int|
            0 <= i < cells@.len() && 0 <= j < cells@[i]@.len() implies estimate_of(
                skills@[j],
                difficulties@[i],
                attempts,
                #[trigger] cells@[i]@[j],
            ) by {
            if i < old_cells.len() {
                assert(cells@[i] == old_cells[i]);
                assert(difficulties@[i] == old_difficulties[i]);
            }
        }
        d += 1;
    }
    let r = ProbabilityTable { skills, difficulties, cells };
    assert(r.skills@.map_values(|s: u32| s as int) =~= steps(skill_lo as int, skill_hi as int));
    assert(r.difficulties@.map_values(|d: u64| d as int) =~= steps(
        difficulty_lo as int,
        difficulty_hi as int,
    ));
    r
}

} // verus!
