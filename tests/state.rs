use yatzy::dice_throw::DiceThrow;
use yatzy::guide::{get_index_name, get_state_indices5, get_total_score, get_yatzy_index, Strategy};
use yatzy::layer_schedule::{is_layer_complete, layer_len, layer_order, layer_order_x};
use yatzy::level_ordering::LevelTables;
use yatzy::util::{count_true, parse_binary};
use yatzy::yatzy::{cell_from_dice, dice_from_cells, YatzyState5, YatzyState6};

#[test]
fn parse_binary_reads_low_bit_first() {
    assert_eq!(parse_binary(&[true, false, true]), 5);
    assert_eq!(parse_binary(&[]), 0);
    assert_eq!(count_true([true, false, true, true]), 3);
}

#[test]
fn cells_and_dice() {
    assert_eq!(cell_from_dice::<5>(), 15);
    assert_eq!(cell_from_dice::<6>(), 20);
    assert_eq!(dice_from_cells::<15>(), 5);
    assert_eq!(dice_from_cells::<20>(), 6);
}

#[test]
fn filling_pays_the_bonus_once() {
    let mut s = YatzyState5::new();
    s.points_above = 60;
    let r = s.modify_cell(2, DiceThrow::from_dice(&[3, 3, 1, 1, 2]));
    assert_eq!(r, 6 + 50);
    assert_eq!(s.points_above, 66);
    let r = s.modify_cell(0, DiceThrow::from_dice(&[1, 3, 3, 2, 2]));
    assert_eq!(r, 1);
    assert_eq!(s.get_n_above(), 2);
    assert!(s.cells[0] && s.cells[2]);
}

#[test]
fn set_cell_leaves_the_state() {
    let s = YatzyState6::new();
    let (t, r) = s.set_cell(19, DiceThrow::from_dice(&[4, 4, 4, 4, 4, 4]));
    assert_eq!(r, 100);
    assert!(t.cells[19]);
    assert!(!s.cells[19]);
    assert_eq!(t.get_n_below(), 1);
}

#[test]
fn clipped_points_share_an_index() {
    let tables = LevelTables::<5>::new();
    let mut cells = [true; 15];
    cells[1] = false;
    let a = YatzyState5::from_dyn(&cells, 70);
    let b = YatzyState5::from_dyn(&cells, 63);
    assert_eq!(a.get_above_index(&tables), b.get_above_index(&tables));
    assert_eq!(a.get_below_index(&tables), b.get_below_index(&tables));
}

#[test]
fn state_indices_of_the_start() {
    let tables = LevelTables::<5>::new();
    let r = get_state_indices5(&tables, &[false; 15], 0);
    assert_eq!(r, [0, 0, 1, 1, 0, 0]);
    let mut cells = [true; 15];
    cells[14] = false;
    let r = get_state_indices5(&tables, &cells, 100);
    assert_eq!(r[0], 6);
    assert_eq!(r[1], 8);
    assert_eq!(r[3], 9);
    assert_eq!(tables.below[8][r[5]], cells[6..].to_vec());
}

#[test]
fn total_score_adds_the_bonus() {
    let mut points = vec![None; 15];
    for (i, p) in [3, 6, 9, 12, 15, 18].into_iter().enumerate() {
        points[i] = Some(p);
    }
    points[14] = Some(50);
    assert_eq!(get_total_score::<5>(&points), 63 + 50 + 50);
    points[0] = Some(2);
    assert_eq!(get_total_score::<5>(&points), 62 + 50);
}

#[test]
fn strategy_bytes() {
    assert_eq!(Strategy::from_byte(0x80 | 0b11000), Strategy::Rethrow(0b11000));
    assert_eq!(Strategy::from_byte(14), Strategy::Cell(14));
    assert_eq!(Strategy::Rethrow(3).to_byte(), 131);
    let mut s = YatzyState5::new();
    s.cells[3] = true;
    assert!(!Strategy::Cell(3).is_valid_for(&s, 5));
    assert!(Strategy::Cell(4).is_valid_for(&s, 5));
    assert!(!Strategy::Cell(15).is_valid_for(&s, 5));
    assert!(Strategy::Rethrow(31).is_valid_for(&s, 5));
    assert!(!Strategy::Rethrow(32).is_valid_for(&s, 5));
}

#[test]
fn layers_come_after_their_dependencies() {
    let order = layer_order(9);
    assert_eq!(order.len(), 210);
    assert_eq!(order[0], (6, 9, 0));
    assert_eq!(order[209], (0, 0, 2));
    let pos = |l: (usize, usize, usize)| order.iter().position(|&x| x == l).unwrap();
    for (p, &(na, nb, nt)) in order.iter().enumerate() {
        if na < 6 {
            assert!(pos((na + 1, nb, 2)) < p);
        }
        if nb < 9 {
            assert!(pos((na, nb + 1, 2)) < p);
        }
        if nt > 0 {
            assert!(pos((na, nb, nt - 1)) < p);
        }
    }
}

#[test]
fn layer_completeness_needs_exact_sizes() {
    assert_eq!(layer_len(2, 3, 252), Some(1512));
    assert_eq!(layer_len(usize::MAX, 2, 1), None);
    assert!(is_layer_complete(10, Some(40), Some(10)));
    assert!(!is_layer_complete(10, Some(39), Some(10)));
    assert!(!is_layer_complete(10, None, Some(10)));
}

#[test]
fn category_names_and_codes() {
    assert_eq!(get_yatzy_index::<5>("yz"), Some(14));
    assert_eq!(get_yatzy_index::<6>("yz"), Some(19));
    assert_eq!(get_yatzy_index::<5>("3s"), Some(2));
    assert_eq!(get_yatzy_index::<5>("3p"), None);
    assert_eq!(get_yatzy_index::<6>("3p"), Some(8));
    assert_eq!(get_yatzy_index::<6>("sj"), Some(18));
    assert_eq!(get_yatzy_index::<5>("hs"), Some(12));
    assert_eq!(get_yatzy_index::<5>("yzz"), None);
    assert_eq!(get_index_name::<5>(12), "house");
    assert_eq!(get_index_name::<6>(12), "small straight");
    assert_eq!(get_index_name::<6>(15), "hut");
    for n in 0..15 {
        let name = get_index_name::<5>(n);
        assert!(!name.is_empty());
    }
}

#[test]
fn carry_over_layers_come_after_their_dependencies() {
    let order = layer_order_x(9);
    let expected: usize = (0..=6usize)
        .map(|na| (0..=9usize).map(|nb| 2 * (na + nb) + 3).sum::<usize>())
        .sum();
    assert_eq!(order.len(), expected);
    assert_eq!(order[0], (6, 9, 0));
    assert_eq!(*order.last().unwrap(), (0, 0, 2));
    let pos = |l: (usize, usize, usize)| order.iter().position(|&x| x == l).unwrap();
    for (p, &(na, nb, nt)) in order.iter().enumerate() {
        assert!(nt <= 2 * (na + nb) + 2);
        if na < 6 {
            assert!(pos((na + 1, nb, nt + 2)) < p);
        }
        if nb < 9 {
            assert!(pos((na, nb + 1, nt + 2)) < p);
        }
        if nt > 0 {
            assert!(pos((na, nb, nt - 1)) < p);
        }
    }
}

#[test]
fn only_yatzy_left() {
    let mut cells = [true; 15];
    cells[14] = false;
    let s = YatzyState5::from_dyn(&cells, 63);
    let (t, reward) = s.set_cell(14, DiceThrow::from_dice(&[6, 6, 6, 6, 6]));
    assert_eq!(reward, 50);
    assert!(t.cells.iter().all(|&c| c));
    assert!(Strategy::Cell(14).is_valid_for(&s, 5));
    for c in 0..14 {
        assert!(!Strategy::Cell(c).is_valid_for(&s, 5));
    }
}

#[test]
fn default_state_is_empty() {
    let s = YatzyState6::default();
    assert!(s.cells.iter().all(|&c| !c));
    assert_eq!(s.points_above, 0);
}
