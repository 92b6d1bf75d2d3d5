use dice_pool::dice::{roll_dices, roll_dices_by_skill, RandomDicesGenerator, SequinentalDicesGenerator};
use dice_pool::estimate::{build_table, count_wins, is_win, percent_hundredths};
use dice_pool::outcome::calc_dices_value;
use dice_pool::pool::{add_bonuses_by_skill, get_dices_amount_by_skill};

#[test]
fn pool_size_follows_skill_up_to_ten() {
    for skill in 0..=10u32 {
        assert_eq!(get_dices_amount_by_skill(skill), skill);
    }
}

#[test]
fn pool_size_caps_at_ten() {
    assert_eq!(get_dices_amount_by_skill(11), 10);
    assert_eq!(get_dices_amount_by_skill(69), 10);
    assert_eq!(get_dices_amount_by_skill(u32::MAX), 10);
}

#[test]
fn low_skill_adds_no_bonus() {
    let pool = vec![1, 2, 3, 4, 5, 6, 6];
    assert_eq!(add_bonuses_by_skill(pool.clone(), 7), pool);
    assert_eq!(add_bonuses_by_skill(vec![], 0), Vec::<u32>::new());
    let ten = vec![3; 10];
    assert_eq!(add_bonuses_by_skill(ten.clone(), 10), ten);
}

#[test]
fn skill_twenty_adds_one_to_every_die() {
    let pool = vec![1, 2, 3, 4, 5, 6, 1, 2, 3, 4];
    let expected: Vec<u32> = pool.iter().map(|v| v + 1).collect();
    assert_eq!(add_bonuses_by_skill(pool, 20), expected);
}

#[test]
fn skill_fifteen_adds_one_to_the_first_five() {
    let pool = vec![1; 10];
    assert_eq!(
        add_bonuses_by_skill(pool, 15),
        vec![2, 2, 2, 2, 2, 1, 1, 1, 1, 1]
    );
}

#[test]
fn skill_thirty_five_splits_three_and_two() {
    let pool = vec![1; 10];
    assert_eq!(
        add_bonuses_by_skill(pool, 35),
        vec![4, 4, 4, 4, 4, 3, 3, 3, 3, 3]
    );
}

#[test]
fn all_low_pool_scores_its_highest_die() {
    assert_eq!(calc_dices_value(&vec![1, 2, 3]), 6);
    assert_eq!(calc_dices_value(&vec![5, 1, 4]), 10);
    assert_eq!(calc_dices_value(&vec![2]), 4);
}

#[test]
fn two_equal_successes_fuse() {
    assert_eq!(calc_dices_value(&vec![6, 6]), 14);
}

#[test]
fn four_equal_successes_fuse_once() {
    assert_eq!(calc_dices_value(&vec![6, 6, 6, 6]), 16);
}

#[test]
fn close_top_values_give_half_point() {
    assert_eq!(calc_dices_value(&vec![8, 7]), 17);
    assert_eq!(calc_dices_value(&vec![6, 6, 6, 6, 7]), 17);
}

#[test]
fn distant_top_values_give_no_half_point() {
    assert_eq!(calc_dices_value(&vec![9, 6]), 18);
    assert_eq!(calc_dices_value(&vec![9, 6, 3, 1]), 18);
}

#[test]
fn failures_do_not_count_beside_successes() {
    assert_eq!(calc_dices_value(&vec![5, 6, 5]), 12);
}

#[test]
fn fused_values_fuse_again() {
    // 6,6 -> 7 joins the 7 already there, and 7,7 -> 8.
    assert_eq!(calc_dices_value(&vec![6, 6, 7]), 16);
    // 6,6,6 -> 7; with the 7: 8; the 9 stays and 8 is within one of it.
    assert_eq!(calc_dices_value(&vec![6, 6, 6, 7, 9]), 19);
}

#[test]
fn reordering_keeps_the_outcome() {
    let a = vec![6, 7, 6, 9, 2, 7, 6];
    let b = vec![2, 6, 6, 6, 7, 7, 9];
    let c = vec![9, 7, 6, 2, 7, 6, 6];
    let r = calc_dices_value(&a);
    assert_eq!(calc_dices_value(&b), r);
    assert_eq!(calc_dices_value(&c), r);
}

#[test]
fn share_in_hundredths_of_a_percent() {
    assert_eq!(percent_hundredths(1, 3), 3333);
    assert_eq!(percent_hundredths(2, 3), 6666);
    assert_eq!(percent_hundredths(3, 3), 10000);
    assert_eq!(percent_hundredths(0, 5), 0);
    assert_eq!(percent_hundredths(u64::MAX, u64::MAX), 10000);
}

#[test]
fn win_compares_in_half_points() {
    // skill 20: every die gets one more.
    let raw = vec![5, 5, 1, 1, 1, 1, 1, 1, 1, 1];
    // 6,6 -> 7.
    assert!(is_win(&raw, 20, 14));
    assert!(!is_win(&raw, 20, 15));
    assert!(is_win(&vec![1, 2], 2, 4));
    assert!(!is_win(&vec![1, 2], 2, 5));
}

#[test]
fn rolled_dice_show_faces() {
    let r = roll_dices(50);
    assert_eq!(r.len(), 50);
    assert!(r.iter().all(|v| (1..=6).contains(v)));
    assert!(roll_dices(0).is_empty());
}

#[test]
fn rolled_pool_carries_bonuses() {
    for _ in 0..100 {
        let r = roll_dices_by_skill(35);
        assert_eq!(r.len(), 10);
        assert!(r[..5].iter().all(|v| (4..=9).contains(v)));
        assert!(r[5..].iter().all(|v| (3..=8).contains(v)));
    }
    assert_eq!(roll_dices_by_skill(4).len(), 4);
}

#[test]
fn random_generator_gives_pools_of_its_size() {
    let mut g = RandomDicesGenerator::new(7);
    assert_eq!(g.amount(), 7);
    for _ in 0..20 {
        let p = g.next().unwrap();
        assert_eq!(p.len(), 7);
        assert!(p.iter().all(|v| (1..=6).contains(v)));
    }
}

#[test]
fn sequential_generator_walks_every_pool_once() {
    let mut g = SequinentalDicesGenerator::new(2);
    assert_eq!(g.next(), Some(vec![1, 1]));
    assert_eq!(g.next(), Some(vec![1, 2]));
    let mut seen = 2;
    let mut last = vec![1, 2];
    while let Some(p) = g.next() {
        assert!(p > last);
        last = p;
        seen += 1;
    }
    assert_eq!(seen, 36);
    assert_eq!(last, vec![6, 6]);
    assert_eq!(g.next(), None);
}

#[test]
fn sequential_generator_of_one_die() {
    let mut g = SequinentalDicesGenerator::new(1);
    for face in 1..=6u32 {
        assert_eq!(g.next(), Some(vec![face]));
    }
    assert_eq!(g.next(), None);
}

#[test]
fn wins_never_exceed_attempts() {
    assert!(count_wins(11, 10, 200) <= 200);
    assert_eq!(count_wins(11, 0, 50), 50);
    assert_eq!(count_wins(11, 1000, 50), 0);
}

#[test]
fn table_has_a_cell_per_skill_and_difficulty() {
    let t = build_table(11, 14, 10, 13, 20);
    assert_eq!(t.skills, vec![11, 12, 13, 14]);
    assert_eq!(t.difficulties, vec![10, 11, 12, 13]);
    assert_eq!(t.cells.len(), 4);
    for row in &t.cells {
        assert_eq!(row.len(), 4);
        assert!(row.iter().all(|c| *c <= 10000));
    }
}

#[test]
fn chances_grow_with_skill_and_shrink_with_difficulty() {
    let n = 20_000u64;
    let tolerance = n / 50;
    // difficulty 7 is 14 half points.
    let low = count_wins(11, 14, n);
    let high = count_wins(30, 14, n);
    assert!(high + tolerance >= low);
    let easy = count_wins(20, 12, n);
    let hard = count_wins(20, 18, n);
    assert!(easy + tolerance >= hard);
}

#[test]
fn empty_pool_stays_empty_at_any_skill() {
    for skill in [0u32, 11, 15, 19, 20, 35, 69] {
        assert_eq!(add_bonuses_by_skill(vec![], skill), Vec::<u32>::new());
    }
}

#[test]
fn short_pool_gets_the_larger_bonus_throughout() {
    assert_eq!(add_bonuses_by_skill(vec![1, 2], 15), vec![2, 3]);
    assert_eq!(add_bonuses_by_skill(vec![1, 2, 3], 34), vec![4, 5, 6]);
}

#[test]
fn no_bonus_leaves_the_largest_value_alone() {
    assert_eq!(add_bonuses_by_skill(vec![u32::MAX, 1], 10), vec![u32::MAX, 1]);
}
