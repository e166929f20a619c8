use yatzy::dice_distributions::HandTable;
use yatzy::dice_throw::DiceThrow;
use yatzy::level_ordering::{points_above, LevelTables};
use yatzy::yatzy::YatzyState6;

#[test]
fn hand_counts() {
    assert_eq!(HandTable::<5>::new().hand_count(), 252);
    assert_eq!(HandTable::<6>::new().hand_count(), 462);
}

#[test]
fn hand_bijection_five_and_six() {
    let t5 = HandTable::<5>::new();
    for i in 0..t5.hand_count() {
        assert_eq!(t5.index_of(&t5.hand_of(i)), i);
    }
    let t6 = HandTable::<6>::new();
    for i in 0..t6.hand_count() {
        assert_eq!(t6.index_of(&t6.hand_of(i)), i);
    }
}

#[test]
fn hands_are_in_lexicographic_order() {
    let t = HandTable::<5>::new();
    assert_eq!(t.hand_of(0).dice, [0, 0, 0, 0, 0, 5]);
    assert_eq!(t.hand_of(251).dice, [5, 0, 0, 0, 0, 0]);
}

#[test]
fn probability_numerators_sum_to_six_pow() {
    let t5 = HandTable::<5>::new();
    let s5: u64 = t5.numerators().iter().map(|&x| x as u64).sum();
    assert_eq!(s5, 7776);
    assert_eq!(t5.divisor(), 7776);
    let t6 = HandTable::<6>::new();
    let s6: u64 = t6.numerators().iter().map(|&x| x as u64).sum();
    assert_eq!(s6, 46656);
    assert_eq!(t6.divisor(), 46656);
}

#[test]
fn multinomial_numerators() {
    let t = HandTable::<5>::new();
    let straight = t.index_of(&DiceThrow::from_dice(&[1, 2, 3, 4, 5]));
    assert_eq!(t.probability_numerator(straight), 120);
    let sixes = t.index_of(&DiceThrow::from_dice(&[6, 6, 6, 6, 6]));
    assert_eq!(t.probability_numerator(sixes), 1);
    let house = t.index_of(&DiceThrow::from_dice(&[3, 3, 3, 4, 4]));
    assert_eq!(t.probability_numerator(house), 10);
}

#[test]
fn reroll_rows_sum_to_six_pow() {
    let t = HandTable::<5>::new();
    for h in [0usize, 17, 100, 251] {
        for mask in 0u8..32 {
            let row = t.reroll_counts(h, mask);
            let total: u64 = row.iter().map(|&x| x as u64).sum();
            assert_eq!(total, 6u64.pow(mask.count_ones()));
        }
    }
}

#[test]
fn reroll_mask_zero_is_identity() {
    let t = HandTable::<5>::new();
    for h in 0..t.hand_count() {
        let row = t.reroll_counts(h, 0);
        for (j, &x) in row.iter().enumerate() {
            assert_eq!(x, if j == h { 1 } else { 0 });
        }
    }
}

#[test]
fn reroll_two_sixes_of_three_ones() {
    let t = HandTable::<5>::new();
    let h = t.index_of(&DiceThrow::from_dice(&[1, 1, 1, 6, 6]));
    let row = t.reroll_counts(h, 0b11000);
    let five_ones = t.index_of(&DiceThrow::from_dice(&[1, 1, 1, 1, 1]));
    let four_ones = t.index_of(&DiceThrow::from_dice(&[1, 1, 1, 1, 4]));
    assert_eq!(row[five_ones], 1);
    assert_eq!(row[four_ones], 2);
    assert_eq!(row[h], 1);
}

#[test]
fn bonus_thresholds() {
    assert_eq!(points_above::<5>(), 63);
    assert_eq!(points_above::<6>(), 84);
}

#[test]
fn lower_levels_are_binomial() {
    let l5 = LevelTables::<5>::new();
    let sizes: Vec<usize> = l5.below.iter().map(|g| g.len()).collect();
    assert_eq!(sizes, vec![1, 9, 36, 84, 126, 126, 84, 36, 9, 1]);
    let l6 = LevelTables::<6>::new();
    assert_eq!(l6.below.len(), 15);
    assert_eq!(l6.below[7].len(), 3432);
}

#[test]
fn upper_levels_only_hold_reachable_sums() {
    let l5 = LevelTables::<5>::new();
    assert_eq!(l5.above[0], vec![(0, [false; 6])]);
    // ones alone: 0 to 5 points
    let ones: Vec<usize> = l5.above[1]
        .iter()
        .filter(|(_, m)| m[0])
        .map(|&(p, _)| p)
        .collect();
    assert_eq!(ones, vec![0, 1, 2, 3, 4, 5]);
    // all six filled: every sum from 0 to the threshold can occur
    assert_eq!(l5.above[6].len(), 64);
    for g in &l5.above {
        for w in g.windows(2) {
            assert!(w[0] < w[1]);
        }
    }
}

#[test]
fn level_maps_invert_the_levels() {
    let l6 = LevelTables::<6>::new();
    for g in &l6.above {
        for (i, &(p, m)) in g.iter().enumerate() {
            let mut cells = [false; 20];
            cells[..6].copy_from_slice(&m);
            let s = YatzyState6::from_dyn(&cells, p);
            assert_eq!(s.get_above_index(&l6), i);
        }
    }
    for g in &l6.below {
        for (i, m) in g.iter().enumerate() {
            assert_eq!(l6.below_map[yatzy::util::parse_binary(m)], i);
        }
    }
}

#[test]
fn terminal_layer_sizes() {
    let levels = LevelTables::<5>::new();
    let hands = HandTable::<5>::new();
    let positions = yatzy::layer_schedule::layer_len(
        levels.above[6].len(),
        levels.below[9].len(),
        hands.hand_count(),
    )
    .unwrap();
    assert_eq!(positions, 64 * 1 * 252);
    assert!(yatzy::layer_schedule::is_layer_complete(
        positions as u64,
        Some(4 * positions as u64),
        Some(positions as u64)
    ));
}

#[test]
fn rerolling_the_sixes_raises_the_expected_ones() {
    let t = HandTable::<5>::new();
    let h = DiceThrow::from_dice(&[1, 1, 1, 6, 6]);
    let sixes = h.get_mask(DiceThrow::from_dice(&[6, 6]));
    assert_eq!(sixes, 0b11000);
    let row = t.reroll_counts(t.index_of(&h), sixes);
    let weighted: u32 = row
        .iter()
        .enumerate()
        .map(|(j, &c)| c * t.hand_of(j).cell_score::<5>(0) as u32)
        .sum();
    // 36 equally likely rolls of the two dice; keeping gives 3 points each
    assert_eq!(weighted, 36 * 3 + 12);
    assert!(weighted > 36 * 3);
}

#[test]
fn upper_levels_sort_flags_ones_first() {
    let l5 = LevelTables::<5>::new();
    let g = &l5.above[2];
    let fives_sixes = g.iter().position(|&e| e == (0, [false, false, false, false, true, true])).unwrap();
    let ones_twos = g.iter().position(|&e| e == (0, [true, true, false, false, false, false])).unwrap();
    assert!(fives_sixes < ones_twos);
    assert_eq!(g[0], (0, [false, false, false, false, true, true]));
}
