use yatzy::dice_distributions::HandTable;
use yatzy::level_ordering::LevelTables;
use yatzy::dice_throw::DiceThrow;
use yatzy::simulation::{lookup, play_turn, simulate_n_5, simulate_n_5_full, state_offset};

/// Strategy bytes that never reroll and always fill the first open category.
fn fill_first(levels: &LevelTables<5>, n_hands: usize) -> Vec<Vec<u8>> {
    let mut strats = Vec::new();
    for na in 0..=6 {
        for nb in 0..=9 {
            for nt in 0..3 {
                let mut layer = Vec::new();
                for &(_, upper) in &levels.above[na] {
                    for lower in &levels.below[nb] {
                        let first = upper
                            .iter()
                            .chain(lower.iter())
                            .position(|&filled| !filled)
                            .unwrap_or(0) as u8;
                        for _ in 0..n_hands {
                            layer.push(if nt == 0 { first } else { 0 });
                        }
                    }
                }
                strats.push(layer);
            }
        }
    }
    strats
}

#[test]
fn simulated_games_fill_every_category() {
    let levels = LevelTables::<5>::new();
    let hands = HandTable::<5>::new();
    let strats = fill_first(&levels, hands.hand_count());
    let mut rows = vec![[0u32; 15]; 20];
    assert!(simulate_n_5_full(&mut rows, &levels, &hands, &strats));
    for row in &rows {
        assert!(row[14] == 0 || row[14] == 50);
        assert!(row[13] >= 5 && row[13] <= 30);
        assert!(row[0] <= 5);
    }
    let mut totals = vec![0u32; 20];
    assert!(simulate_n_5(&mut totals, &levels, &hands, &strats));
    assert!(totals.iter().all(|&t| t >= 5 && t <= 374));
}

#[test]
fn corrupt_strategies_are_reported() {
    let levels = LevelTables::<5>::new();
    let hands = HandTable::<5>::new();
    let mut strats = fill_first(&levels, hands.hand_count());
    for layer in strats.iter_mut() {
        for b in layer.iter_mut() {
            *b = 0;
        }
    }
    let mut totals = vec![0u32; 3];
    assert!(!simulate_n_5(&mut totals, &levels, &hands, &strats));
}

#[test]
fn offsets_and_lookups_of_the_first_turn() {
    let levels = LevelTables::<5>::new();
    let hands = HandTable::<5>::new();
    let strats = fill_first(&levels, hands.hand_count());
    let hand = DiceThrow::from_dice(&[2, 2, 3, 5, 6]);
    let ti = hands.index_of(&hand);
    let lower = vec![false; 9];
    assert_eq!(state_offset(&levels, &hands, &[false; 6], 0, &lower, &hand), Some(ti));
    assert_eq!(lookup(&levels, &hands, &strats, &[false; 6], 0, &lower, &hand, 0), Some(0));
    assert_eq!(lookup(&levels, &hands, &strats, &[false; 6], 0, &lower, &hand, 2), Some(0));
    // ones filled with 9 points cannot happen with five dice
    let mut upper = [false; 6];
    upper[0] = true;
    assert_eq!(state_offset(&levels, &hands, &upper, 9, &lower, &hand), None);
    assert_eq!(lookup(&levels, &hands, &strats, &upper, 9, &lower, &hand, 0), None);
    // an empty layer has no byte
    let mut short = strats.clone();
    short[2] = Vec::new();
    assert_eq!(lookup(&levels, &hands, &short, &[false; 6], 0, &lower, &hand, 2), None);
}

#[test]
fn a_turn_with_given_dice() {
    let levels = LevelTables::<5>::new();
    let hands = HandTable::<5>::new();
    let mut strats = fill_first(&levels, hands.hand_count());
    let first = DiceThrow::from_dice(&[1, 1, 1, 6, 6]);
    let lower = vec![false; 9];
    // at two rolls left, roll the two sixes again; they show 1 and 1
    let off = state_offset(&levels, &hands, &[false; 6], 0, &lower, &first).unwrap();
    strats[2][off] = 0x80 | 0b11000;
    let mut points = vec![None; 15];
    assert!(play_turn(&levels, &hands, &strats, &mut points, &first, &[1, 1, 4, 4, 4], &[2, 2, 2, 2, 2]));
    assert_eq!(points[0], Some(5));
    assert!(points[1..].iter().all(|p| p.is_none()));
    // the same byte on a full sheet finds no open category
    let mut full = vec![Some(0); 15];
    assert!(!play_turn(&levels, &hands, &strats, &mut full, &first, &[1; 5], &[1; 5]));
    assert_eq!(full, vec![Some(0); 15]);
}
