use yatzy::dice_throw::DiceThrow;

fn hand(dice: &[u8]) -> DiceThrow {
    DiceThrow::from_dice(dice)
}

#[test]
fn yatzy_of_sixes_scores_fifty() {
    assert_eq!(hand(&[6, 6, 6, 6, 6]).cell_score::<5>(14), 50);
}

#[test]
fn small_straight_scores_fifteen() {
    assert_eq!(hand(&[1, 2, 3, 4, 5]).cell_score::<5>(10), 15);
}

#[test]
fn two_pairs_score_six() {
    assert_eq!(hand(&[1, 1, 2, 2, 3]).cell_score::<5>(7), 6);
}

#[test]
fn house_scores_seventeen() {
    assert_eq!(hand(&[3, 3, 3, 4, 4]).cell_score::<5>(12), 17);
}

#[test]
fn upper_categories_count_faces() {
    let h = hand(&[1, 1, 1, 6, 6]);
    assert_eq!(h.cell_score::<5>(0), 3);
    assert_eq!(h.cell_score::<5>(5), 12);
    assert_eq!(h.cell_score::<5>(2), 0);
    assert_eq!(h.ammount_of::<6>(), 12);
}

#[test]
fn pairs_take_the_highest_faces() {
    let h = hand(&[2, 2, 5, 5, 6, 6]);
    assert_eq!(h.pairs::<1>(), 12);
    assert_eq!(h.pairs::<2>(), 22);
    assert_eq!(h.pairs::<3>(), 26);
    assert_eq!(hand(&[2, 2, 5, 5, 6]).pairs::<3>(), 0);
}

#[test]
fn n_of_a_kind_takes_the_highest_face() {
    let h = hand(&[4, 4, 4, 4, 2, 2]);
    assert_eq!(h.n_of_a_kind::<3>(), 12);
    assert_eq!(h.n_of_a_kind::<4>(), 16);
    assert_eq!(h.n_of_a_kind::<5>(), 0);
}

#[test]
fn straights_need_every_face() {
    assert_eq!(hand(&[2, 3, 4, 5, 6]).straight::<2, 6>(), 20);
    assert_eq!(hand(&[2, 3, 4, 5, 5]).straight::<2, 6>(), 0);
    assert_eq!(hand(&[1, 2, 3, 4, 5, 6]).cell_score::<6>(14), 21);
}

#[test]
fn buildings_need_two_different_faces() {
    assert_eq!(hand(&[5, 5, 5, 5, 5]).building::<3, 2>(), 0);
    assert_eq!(hand(&[2, 2, 6, 6, 6, 2]).building::<3, 3>(), 24);
    assert_eq!(hand(&[3, 3, 3, 3, 1, 1]).building::<4, 2>(), 14);
    assert_eq!(hand(&[3, 3, 3, 1, 1, 6]).building::<4, 2>(), 0);
}

#[test]
fn chance_and_six_dice_yatzy() {
    assert_eq!(hand(&[1, 2, 3, 4, 6]).chance(), 16);
    assert_eq!(hand(&[2, 2, 2, 2, 2, 2]).cell_score::<6>(19), 100);
    assert_eq!(hand(&[2, 2, 2, 2, 2, 3]).yatzy(), 0);
}

#[test]
fn ordered_dice_are_ascending() {
    let h = hand(&[6, 1, 6, 1, 1]);
    assert_eq!(h.into_ordered_dice(), vec![1, 1, 1, 6, 6]);
    assert_eq!(h.collect_dice::<7>(), [1, 1, 1, 6, 6, 0, 0]);
    assert_eq!(h.amt_dice(), 5);
}

#[test]
fn reroll_replaces_the_masked_dice() {
    let h = hand(&[1, 1, 1, 6, 6]);
    let r = h.overwrite_reroll_dyn::<5>(0b11000, &[1, 1]);
    assert_eq!(r.dice, [5, 0, 0, 0, 0, 0]);
    let r = h.overwrite_reroll::<5, 2>(0b00011, [3, 4]);
    assert_eq!(r.dice, [1, 0, 1, 1, 0, 2]);
}

#[test]
fn subthrow_selects_the_masked_dice() {
    let h = hand(&[1, 1, 1, 6, 6]);
    assert_eq!(h.get_subthrow(0b11000).dice, [0, 0, 0, 0, 0, 2]);
    assert_eq!(h.get_subthrow(0).dice, [0, 0, 0, 0, 0, 0]);
}

#[test]
fn throw_gives_the_asked_number_of_dice() {
    for n in 0..=6 {
        let t = DiceThrow::throw(n);
        assert_eq!(t.amt_dice(), n);
    }
}

#[test]
fn mask_selects_the_sub_throw() {
    let h = hand(&[1, 1, 1, 6, 6]);
    let chosen = hand(&[1, 6]);
    let m = h.get_mask(chosen);
    assert_eq!(m, 0b01001);
    assert_eq!(h.get_subthrow(m), chosen);
    assert_eq!(h.get_mask(hand(&[6, 6])), 0b11000);
}

#[test]
fn sub_throws_of_a_hand() {
    let h = hand(&[1, 1, 1, 6, 6]);
    let subs = h.into_sub_throw_iter();
    assert_eq!(subs.len(), 4 * 3);
    assert!(subs.contains(&DiceThrow::new()));
    assert!(subs.contains(&h));
    let masks = h.into_mask_iter();
    assert_eq!(masks.len(), 12);
    for (s, &m) in subs.iter().zip(masks.iter()) {
        assert_eq!(h.get_subthrow(m), *s);
    }
    let all_different = hand(&[1, 2, 3, 4, 5, 6]).into_sub_throw_iter();
    assert_eq!(all_different.len(), 64);
}

#[test]
fn hand_from_counts() {
    let h = DiceThrow::from([0, 2, 0, 0, 0, 3]);
    assert_eq!(h.into_ordered_dice(), vec![2, 2, 6, 6, 6]);
    assert_eq!(h.cell_score::<5>(12), 22);
}
