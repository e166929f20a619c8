use crate::dice_distributions::{hand_pos, is_hand, lists_all_hands, HandTable};
use crate::dice_throw::{
    pair_faces, top_face, top_pairs_sum,
    amount_of_spec, counts_match, counts_of, lemma_low_bits_set_bound, ordered_dice, proper_faces,
    reroll_seq,
    category_score, count_low_bits, dice_total, lemma_ordered_dice_counts, n_categories, DiceThrow,
};
use crate::guide::{get_total_score, strategy_of_byte, written_sum, written_upper_sum, Strategy};
use crate::level_ordering::{
    bonus_threshold, grid_cells, n_lower, sum_reachable, sums_to, upper_key, upper_reachable, LevelTables,
};
use crate::util::{
    bits_value, count_flags, count_set, count_true, lemma_bits_value_bound, lemma_count_set_bound,
    parse_binary, two_pow,
};
use crate::yatzy::{bonus_at, clipped_points};
use vstd::prelude::*;

verus! {

/// Whether `x` points in category `c` can be scored with some hand of `n`
/// dice.
pub open spec fn achievable(n: int, c: int, x: usize) -> bool {
    exists|h: Seq<usize>| #[trigger] is_hand(n, h) && x == category_score(n, h, c)
}

/// A sheet entry of at most 100 points, or an empty one.
pub open spec fn small_entry(e: Option<usize>) -> bool {
    match e {
        Some(x) => x <= 100,
        None => true,
    }
}

/// An empty sheet entry, or one with points that can be scored in category
/// `c`.
pub open spec fn fair_entry(n: int, c: int, e: Option<usize>) -> bool {
    match e {
        Some(x) => achievable(n, c, x),
        None => true,
    }
}

/// How many entries of a score sheet are written.
pub open spec fn written_count(s: Seq<Option<usize>>) -> nat
    decreases s.len(),
{
    if s.len() == 0 {
        0
    } else {
        written_count(s.drop_last()) + if s.last() is Some {
            1nat
        } else {
            0
        }
    }
}

/// A finished game of `n` dice: every category written, each with points
/// that some hand scores there.
pub open spec fn is_played_sheet(n: int, s: Seq<Option<usize>>) -> bool {
    &&& s.len() == n_categories(n)
    &&& forall|c: int| 0 <= c < s.len() ==> (#[trigger] s[c]) is Some
    &&& forall|c: int| 0 <= c < s.len() ==> achievable(n, c, (#[trigger] s[c])->0)
}

/// The final score of a finished sheet: all points plus the bonus.
pub open spec fn sheet_total(n: int, s: Seq<Option<usize>>) -> int {
    written_sum(s) + bonus_at(n, written_upper_sum(s))
}

/// The empty score sheet of the game with `n` dice.
pub open spec fn empty_sheet(n: int) -> Seq<Option<usize>> {
    Seq::new(n_categories(n) as nat, |_i: int| None)
}

/// Dice that can be rolled in a turn of the game with `N` dice: a first hand
/// and the faces for the two rerolls.
pub open spec fn fair_rolls<const N: usize>(d: (Seq<usize>, Seq<u8>, Seq<u8>)) -> bool {
    is_hand(N as int, d.0) && d.1.len() == N && d.2.len() == N && proper_faces(d.1) && proper_faces(d.2)
}

/// `hist` is the sequence of sheets that the stored strategies reach from
/// the empty sheet, turn by turn (see `turn_result`), with the dice `rolls`.
pub open spec fn is_history<const N: usize>(
    levels: LevelTables<N>,
    hands: HandTable<N>,
    strats: Seq<Vec<u8>>,
    hist: Seq<Seq<Option<usize>>>,
    rolls: Seq<(Seq<usize>, Seq<u8>, Seq<u8>)>,
) -> bool {
    &&& hist.len() == rolls.len() + 1
    &&& hist[0] == empty_sheet(N as int)
    &&& forall|t: int|
        0 <= t < rolls.len() ==> fair_rolls::<N>(#[trigger] rolls[t]) && turn_result(
            levels,
            hands,
            strats,
            hist[t],
            rolls[t].0,
            rolls[t].1,
            rolls[t].2,
        ) == Some(hist[t + 1])
}

/// Whether the stored strategies play a whole game ending in sheet `s`, for
/// some dice rolled.
pub open spec fn played_by<const N: usize>(
    levels: LevelTables<N>,
    hands: HandTable<N>,
    strats: Seq<Vec<u8>>,
    s: Seq<Option<usize>>,
) -> bool {
    exists|hist: Seq<Seq<Option<usize>>>, rolls: Seq<(Seq<usize>, Seq<u8>, Seq<u8>)>| #[trigger]
        is_history(levels, hands, strats, hist, rolls) && rolls.len() == n_categories(N as int) && hist.last()
            == s
}

/// Whether `x` is the final score of a finished game played by the stored
/// strategies.
pub open spec fn is_game_total<const N: usize>(
    levels: LevelTables<N>,
    hands: HandTable<N>,
    strats: Seq<Vec<u8>>,
    x: u32,
) -> bool {
    exists|s: Seq<Option<usize>>| #[trigger]
        is_played_sheet(N as int, s) && played_by(levels, hands, strats, s) && x == sheet_total(N as int, s)
}

/// Whether `row` holds, category by category, the points of a finished game
/// played by the stored strategies.
pub open spec fn is_game_row<const N: usize>(
    levels: LevelTables<N>,
    hands: HandTable<N>,
    strats: Seq<Vec<u8>>,
    row: Seq<u32>,
) -> bool {
    exists|s: Seq<Option<usize>>| #[trigger]
        is_played_sheet(N as int, s) && played_by(levels, hands, strats, s) && row.len() == s.len() && forall|c: int|
            0 <= c < row.len() ==> row[c] == (#[trigger] s[c])->0
}

/// The most points that category `c` can score in the game with `n` dice.
pub open spec fn category_max(n: int, c: int) -> int {
    if c < 6 {
        (c + 1) * n
    } else if n == 5 {
        if c == 6 { 12 } else if c == 7 { 22 } else if c == 8 { 18 } else if c == 9 { 24 } else if c == 10 {
            15
        } else if c == 11 { 20 } else if c == 12 { 28 } else if c == 13 { 30 } else { 50 }
    } else {
        if c == 6 { 12 } else if c == 7 { 22 } else if c == 8 { 30 } else if c == 9 { 18 } else if c == 10 {
            24
        } else if c == 11 { 30 } else if c == 12 { 15 } else if c == 13 { 20 } else if c == 14 { 21 } else if c
            == 15 { 28 } else if c == 16 { 33 } else if c == 17 { 34 } else if c == 18 { 36 } else { 100 }
    }
}

/// The sum of `category_max` over the first `k` categories.
pub open spec fn max_sum_upto(n: int, k: int) -> int
    decreases k,
{
    if k <= 0 {
        0
    } else {
        max_sum_upto(n, k - 1) + category_max(n, k - 1)
    }
}

/// The highest final score of a game with `n` dice: 374 with five dice, 649
/// with six.
pub open spec fn max_total(n: int) -> int {
    if n == 5 {
        374
    } else {
        649
    }
}

/// No hand scores more than `category_max` in a category.
pub proof fn lemma_category_max(n: int, h: Seq<usize>, c: int)
    requires
        n == 5 || n == 6,
        is_hand(n, h),
        0 <= c < n_categories(n),
    ensures
        0 <= category_score(n, h, c) <= category_max(n, c),
{
    reveal_with_fuel(top_pairs_sum, 7);
    reveal_with_fuel(pair_faces, 7);
    reveal_with_fuel(top_face, 7);
    reveal_with_fuel(crate::dice_throw::range_sum, 7);
    if c < 6 {
        assert(h[c] <= n);
        assert(0 <= (c + 1) * h[c] <= (c + 1) * n) by (nonlinear_arith)
            requires
                0 <= h[c] <= n,
                0 <= c,
        ;
    }
}

proof fn lemma_written_sum_max(n: int, s: Seq<Option<usize>>)
    requires
        n == 5 || n == 6,
        s.len() <= n_categories(n),
        forall|c: int| 0 <= c < s.len() ==> (#[trigger] s[c]) is Some,
        forall|c: int| 0 <= c < s.len() ==> achievable(n, c, (#[trigger] s[c])->0),
    ensures
        written_sum(s) <= max_sum_upto(n, s.len() as int),
    decreases s.len(),
{
    if s.len() > 0 {
        let c = s.len() - 1;
        lemma_written_sum_max(n, s.drop_last());
        assert(achievable(n, c, s[c]->0));
        let h = choose|h: Seq<usize>| #[trigger] is_hand(n, h) && s[c]->0 == category_score(n, h, c);
        lemma_category_max(n, h, c);
    }
}

/// A finished game of `n` dice scores at most `max_total(n)`.
pub proof fn lemma_sheet_total_max(n: int, s: Seq<Option<usize>>)
    requires
        n == 5 || n == 6,
        is_played_sheet(n, s),
    ensures
        sheet_total(n, s) <= max_total(n),
{
    lemma_written_sum_max(n, s);
    reveal_with_fuel(max_sum_upto, 21);
}

proof fn lemma_written_count_update(s: Seq<Option<usize>>, c: int, x: usize)
    requires
        0 <= c < s.len(),
        s[c] is None,
    ensures
        written_count(s.update(c, Some(x))) == written_count(s) + 1,
    decreases s.len(),
{
    if c < s.len() - 1 {
        lemma_written_count_update(s.drop_last(), c, x);
        assert(s.update(c, Some(x)).drop_last() == s.drop_last().update(c, Some(x)));
    } else {
        assert(s.update(c, Some(x)).drop_last() == s.drop_last());
    }
}

proof fn lemma_written_count_full(s: Seq<Option<usize>>)
    ensures
        written_count(s) <= s.len(),
        written_count(s) == s.len() ==> forall|c: int| 0 <= c < s.len() ==> (#[trigger] s[c]) is Some,
    decreases s.len(),
{
    if s.len() > 0 {
        lemma_written_count_full(s.drop_last());
        if written_count(s) == s.len() {
            assert forall|c: int| 0 <= c < s.len() implies (#[trigger] s[c]) is Some by {
                if c < s.len() - 1 {
                    assert(s[c] == s.drop_last()[c]);
                }
            }
        }
    }
}

proof fn lemma_written_count_all(s: Seq<Option<usize>>)
    requires
        forall|c: int| 0 <= c < s.len() ==> (#[trigger] s[c]) is Some,
    ensures
        written_count(s) == s.len(),
    decreases s.len(),
{
    if s.len() > 0 {
        lemma_written_count_all(s.drop_last());
    }
}

proof fn lemma_written_count_empty(s: Seq<Option<usize>>)
    requires
        forall|c: int| 0 <= c < s.len() ==> (#[trigger] s[c]) is None,
    ensures
        written_count(s) == 0,
    decreases s.len(),
{
    if s.len() > 0 {
        lemma_written_count_empty(s.drop_last());
    }
}

proof fn lemma_written_sum_bound(s: Seq<Option<usize>>)
    requires
        forall|c: int| 0 <= c < s.len() ==> small_entry(#[trigger] s[c]),
    ensures
        written_sum(s) <= 100 * s.len(),
    decreases s.len(),
{
    if s.len() > 0 {
        lemma_written_sum_bound(s.drop_last());
    }
}

/// Where the strategy bytes of layer `(na, nb, nt)` stand in the list of
/// layers, for `l` lower categories.
pub open spec fn layer_index(l: int, na: int, nb: int, nt: int) -> int {
    (na * (l + 1) + nb) * 3 + nt
}

/// The strategy bytes of layer `(na, nb, nt)`.
pub open spec fn layer_bytes(strats: Seq<Vec<u8>>, l: int, na: int, nb: int, nt: int) -> Seq<u8> {
    strats[layer_index(l, na, nb, nt)]@
}

/// The position of a state and hand within its layer: row-major over (upper
/// position, lower position, hand position).
pub open spec fn state_offset_of<const N: usize>(
    levels: LevelTables<N>,
    hands: HandTable<N>,
    upper: Seq<bool>,
    points: int,
    lower: Seq<bool>,
    hand: Seq<usize>,
) -> int {
    (grid_cells(levels.above_map)[upper_key(clipped_points(N as int, points), upper)] * levels.below@[count_set(
        lower,
    ) as int]@.len() + levels.below_map@[bits_value(lower) as int]) * hands@.len() + hand_pos(hands, hand)
}

/// The stored byte for a state and hand at `nt` rolls left: `None` when the
/// upper configuration is off the tables or the layer is too short.
pub open spec fn stored_byte<const N: usize>(
    levels: LevelTables<N>,
    hands: HandTable<N>,
    strats: Seq<Vec<u8>>,
    upper: Seq<bool>,
    points: int,
    lower: Seq<bool>,
    hand: Seq<usize>,
    nt: int,
) -> Option<u8> {
    let layer = layer_bytes(strats, n_lower(N as int), count_set(upper) as int, count_set(lower) as int, nt);
    let off = state_offset_of(levels, hands, upper, points, lower, hand);
    if upper_reachable(N as int, upper, clipped_points(N as int, points)) && off < layer.len() {
        Some(layer[off])
    } else {
        None
    }
}

/// The byte at position `(ai, bi, ti)` of layer `(na, nb, nt)`.
pub open spec fn stored_at<const N: usize>(
    levels: LevelTables<N>,
    hands: HandTable<N>,
    strats: Seq<Vec<u8>>,
    na: int,
    nb: int,
    nt: int,
    ai: int,
    bi: int,
    ti: int,
) -> u8 {
    layer_bytes(strats, n_lower(N as int), na, nb, nt)[(ai * levels.below@[nb]@.len() + bi) * hands@.len() + ti]
}

/// Whether some category is still open.
pub open spec fn some_open(upper: Seq<bool>, lower: Seq<bool>) -> bool {
    (exists|i: int| 0 <= i < 6 && !#[trigger] upper[i]) || (exists|j: int|
        0 <= j < lower.len() && !#[trigger] lower[j])
}

/// Whether `byte` names a category still open.
pub open spec fn fits_state(byte: u8, upper: Seq<bool>, lower: Seq<bool>) -> bool {
    if byte < 6 {
        !upper[byte as int]
    } else {
        byte < 6 + lower.len() && !lower[byte - 6]
    }
}

/// Whether stored strategies fit the tables: every layer holds one byte per
/// state and hand, and at zero rolls left every byte of a state with an open
/// category names an open category.
pub open spec fn strats_fit<const N: usize>(levels: LevelTables<N>, hands: HandTable<N>, strats: Seq<Vec<u8>>) -> bool {
    let l = n_lower(N as int);
    &&& strats.len() == 21 * (l + 1)
    &&& forall|na: int, nb: int, nt: int|
        0 <= na <= 6 && 0 <= nb <= l && 0 <= nt < 3 ==> (#[trigger] layer_bytes(strats, l, na, nb, nt)).len()
            == levels.above@[na]@.len() * levels.below@[nb]@.len() * hands@.len()
    &&& forall|na: int, nb: int, ai: int, bi: int, ti: int|
        0 <= na <= 6 && 0 <= nb <= l && 0 <= ai < levels.above@[na]@.len() && 0 <= bi
            < levels.below@[nb]@.len() && 0 <= ti < hands@.len() && some_open(
            levels.above@[na]@[ai].1@,
            levels.below@[nb]@[bi]@,
        ) ==> fits_state(
            #[trigger] stored_at(levels, hands, strats, na, nb, 0, ai, bi, ti),
            levels.above@[na]@[ai].1@,
            levels.below@[nb]@[bi]@,
        )
}

/// The upper flags of a score sheet.
pub open spec fn sheet_upper(points: Seq<Option<usize>>) -> Seq<bool> {
    Seq::new(6, |i: int| points[i] is Some)
}

/// The lower flags of a score sheet.
pub open spec fn sheet_lower(points: Seq<Option<usize>>) -> Seq<bool> {
    Seq::new((points.len() - 6) as nat, |j: int| points[j + 6] is Some)
}

/// The sum of the written scores among the first `f` categories.
pub open spec fn upper_sum_upto(points: Seq<Option<usize>>, f: int) -> int
    decreases f,
{
    if f <= 0 {
        0
    } else {
        upper_sum_upto(points, f - 1) + match points[f - 1] {
            Some(x) => x as int,
            None => 0,
        }
    }
}

/// The stored byte for the state of a score sheet and a hand.
pub open spec fn sheet_byte<const N: usize>(
    levels: LevelTables<N>,
    hands: HandTable<N>,
    strats: Seq<Vec<u8>>,
    points: Seq<Option<usize>>,
    hand: Seq<usize>,
    nt: int,
) -> Option<u8> {
    stored_byte(levels, hands, strats, sheet_upper(points), upper_sum_upto(points, 6), sheet_lower(points), hand, nt)
}

/// The hand after following `byte`: with the high bit set, the dice of the
/// mask in its low bits are rolled again and show `fresh` in turn.
pub open spec fn rerolled_hand(hand: Seq<usize>, byte: u8, fresh: Seq<u8>) -> Seq<usize> {
    if byte >= 128 {
        counts_of(reroll_seq(ordered_dice(hand), (byte - 128) as nat, fresh))
    } else {
        hand
    }
}

/// One turn played by the stored strategies: the first roll `first`, then
/// the rerolls (at two and at one roll left) with the dice `again` and
/// `again2`, then the category filled. `None` when a byte is missing or does
/// not name an open category.
pub open spec fn turn_result<const N: usize>(
    levels: LevelTables<N>,
    hands: HandTable<N>,
    strats: Seq<Vec<u8>>,
    points: Seq<Option<usize>>,
    first: Seq<usize>,
    again: Seq<u8>,
    again2: Seq<u8>,
) -> Option<Seq<Option<usize>>> {
    match sheet_byte(levels, hands, strats, points, first, 2) {
        None => None,
        Some(b2) => {
            let h1 = rerolled_hand(first, b2, again);
            match sheet_byte(levels, hands, strats, points, h1, 1) {
                None => None,
                Some(b1) => {
                    let h2 = rerolled_hand(h1, b1, again2);
                    match sheet_byte(levels, hands, strats, points, h2, 0) {
                        None => None,
                        Some(b0) => if b0 < n_categories(N as int) && points[b0 as int] is None {
                            Some(points.update(b0 as int, Some(category_score(N as int, h2, b0 as int) as usize)))
                        } else {
                            None
                        },
                    }
                },
            }
        },
    }
}

/// `new` is `old` with empty category `c` written, with points that can be
/// scored there.
pub open spec fn fills_one(n: int, old: Seq<Option<usize>>, new: Seq<Option<usize>>, c: int) -> bool {
    &&& 0 <= c < old.len()
    &&& old[c] is None
    &&& new[c] is Some
    &&& new == old.update(c, new[c])
    &&& small_entry(new[c])
    &&& achievable(n, c, new[c]->0)
}

proof fn lemma_offset_bound(ai: int, bi: int, ti: int, a: int, b: int, t: int)
    requires
        0 <= ai < a,
        0 <= bi < b,
        0 <= ti < t,
    ensures
        0 <= (ai * b + bi) * t + ti < a * b * t,
{
    assert(0 <= ai * b + bi < a * b) by (nonlinear_arith)
        requires
            0 <= ai < a,
            0 <= bi < b,
    ;
    assert(0 <= (ai * b + bi) * t + ti < a * b * t) by (nonlinear_arith)
        requires
            0 <= ai * b + bi < a * b,
            0 <= ti < t,
    ;
}

/// The position of a state and hand within its layer (see
/// `state_offset_of`); `None` when the upper configuration is off the tables
/// or the position does not fit in `usize`.
pub fn state_offset<const N: usize>(
    levels: &LevelTables<N>,
    hands: &HandTable<N>,
    upper: &[bool; 6],
    points: usize,
    lower: &Vec<bool>,
    hand: &DiceThrow,
) -> (r: Option<usize>)
    requires
        levels.wf(),
        hands.wf(),
        lower@.len() == n_lower(N as int),
        is_hand(N as int, hand.dice@),
    ensures
        r == if upper_reachable(N as int, upper@, clipped_points(N as int, points as int)) && state_offset_of(
            *levels,
            *hands,
            upper@,
            points as int,
            lower@,
            hand.dice@,
        ) <= usize::MAX {
            Some(state_offset_of(*levels, *hands, upper@, points as int, lower@, hand.dice@) as usize)
        } else {
            None
        },
{
    let ai = match levels.find_above(points, upper) {
        Some(i) => i,
        None => return None,
    };
    proof {
        lemma_bits_value_bound(lower@);
        reveal_with_fuel(two_pow, 15);
        lemma_count_set_bound(lower@);
    }
    let bi = levels.below_map[parse_binary(lower.as_slice())];
    let nb = count_flags(lower.as_slice());
    let lb = levels.below[nb].len();
    let t = hands.hand_count();
    let ti = hands.index_of(hand);
    let ghost off = state_offset_of(*levels, *hands, upper@, points as int, lower@, hand.dice@);
    assert(off == (ai * lb + bi) * t + ti);
    assert(ai * lb <= ai * lb + bi <= (ai * lb + bi) * t <= off) by (nonlinear_arith)
        requires
            off == (ai * lb + bi) * t + ti,
            t >= 1,
            ai >= 0,
            lb >= 0,
            bi >= 0,
            ti >= 0,
    ;
    match ai.checked_mul(lb) {
        Some(x) => match x.checked_add(bi) {
            Some(y) => match y.checked_mul(t) {
                Some(z) => z.checked_add(ti),
                None => None,
            },
            None => None,
        },
        None => None,
    }
}

/// The stored byte for a state and hand at `nt` rolls left (see
/// `stored_byte`): `strats` holds the bytes of layer `(na, nb, nt)` at
/// `layer_index`.
pub fn lookup<const N: usize>(
    levels: &LevelTables<N>,
    hands: &HandTable<N>,
    strats: &Vec<Vec<u8>>,
    upper: &[bool; 6],
    points: usize,
    lower: &Vec<bool>,
    hand: &DiceThrow,
    nt: usize,
) -> (r: Option<u8>)
    requires
        levels.wf(),
        hands.wf(),
        lower@.len() == n_lower(N as int),
        is_hand(N as int, hand.dice@),
        nt < 3,
        strats@.len() == 21 * (n_lower(N as int) + 1),
    ensures
        r == stored_byte(*levels, *hands, strats@, upper@, points as int, lower@, hand.dice@, nt as int),
{
    let l: usize = if N == 5 {
        9
    } else {
        14
    };
    proof {
        lemma_count_set_bound(lower@);
        lemma_count_set_bound(upper@);
    }
    let na = count_true(*upper);
    let nb = count_flags(lower.as_slice());
    assert(na * (l + 1) <= 6 * (l + 1) && (na * (l + 1) + nb) * 3 + nt < 21 * (l + 1)) by (nonlinear_arith)
        requires
            na <= 6,
            nb <= l,
            nt < 3,
    ;
    let layer = (na * (l + 1) + nb) * 3 + nt;
    let len = strats[layer].len();
    let off = match state_offset(levels, hands, upper, points, lower, hand) {
        Some(o) => o,
        None => return None,
    };
    if off < len {
        Some(strats[layer][off])
    } else {
        None
    }
}

/// The hand after following strategy byte `byte` with the fresh dice `fresh`.
fn reroll_by<const N: usize>(hand: &DiceThrow, byte: u8, fresh: &[u8]) -> (r: DiceThrow)
    requires
        N == 5 || N == 6,
        is_hand(N as int, hand.dice@),
        fresh@.len() == N,
        proper_faces(fresh@),
    ensures
        r.dice@ == rerolled_hand(hand.dice@, byte, fresh@),
        is_hand(N as int, r.dice@),
        r.valid(),
{
    match Strategy::from_byte(byte) {
        Strategy::Rethrow(mask) => {
            proof {
                lemma_low_bits_set_bound(mask as nat, N as nat);
            }
            let r = hand.overwrite_reroll_dyn::<N>(mask, fresh);
            assert(r.dice@ =~= counts_of(reroll_seq(ordered_dice(hand.dice@), mask as nat, fresh@)));
            r
        },
        Strategy::Cell(_) => *hand,
    }
}

proof fn lemma_sums_to_choice(n: int, filled: Seq<bool>, f: int, c: nat, p: int, x: int)
    requires
        f >= 1,
        filled[f - 1],
        0 <= x < c,
        sums_to(n, filled, f - 1, (n + 1) as nat, p - f * x),
    ensures
        sums_to(n, filled, f, c, p),
    decreases c,
{
    if x < c - 1 {
        lemma_sums_to_choice(n, filled, f, (c - 1) as nat, p, x);
    }
}

/// The written upper scores of a sheet can be reached with its filled upper
/// categories.
proof fn lemma_sheet_reachable(n: int, points: Seq<Option<usize>>, f: int)
    requires
        n == 5 || n == 6,
        points.len() >= 6,
        0 <= f <= 6,
        forall|c: int| 0 <= c < points.len() ==> fair_entry(n, c, #[trigger] points[c]),
    ensures
        sum_reachable(n, sheet_upper(points), f, upper_sum_upto(points, f)),
        upper_sum_upto(points, f) >= 0,
    decreases f,
{
    if f > 0 {
        lemma_sheet_reachable(n, points, f - 1);
        let filled = sheet_upper(points);
        assert(fair_entry(n, f - 1, points[f - 1]));
        match points[f - 1] {
            Some(x) => {
                let h = choose|h: Seq<usize>| #[trigger] is_hand(n, h) && x == category_score(n, h, f - 1);
                assert(x == amount_of_spec(h, f));
                let k = h[f - 1] as int;
                assert(0 <= k <= n);
                lemma_sums_to_choice(n, filled, f, (n + 1) as nat, upper_sum_upto(points, f), k);
            },
            None => {},
        }
    }
}

/// On a sheet with fair entries, a layer that fits the tables holds a byte
/// for every hand, and at zero rolls left that byte names an open category
/// when there is one.
proof fn lemma_sheet_byte<const N: usize>(
    levels: LevelTables<N>,
    hands: HandTable<N>,
    strats: Seq<Vec<u8>>,
    points: Seq<Option<usize>>,
    hand: Seq<usize>,
    nt: int,
)
    requires
        levels.wf(),
        hands.wf(),
        strats_fit(levels, hands, strats),
        points.len() == n_categories(N as int),
        forall|c: int| 0 <= c < points.len() ==> fair_entry(N as int, c, #[trigger] points[c]),
        is_hand(N as int, hand),
        0 <= nt < 3,
    ensures
        sheet_byte(levels, hands, strats, points, hand, nt) is Some,
        nt == 0 && (exists|c: int| 0 <= c < points.len() && (#[trigger] points[c]) is None) ==> fits_state(
            sheet_byte(levels, hands, strats, points, hand, nt)->0,
            sheet_upper(points),
            sheet_lower(points),
        ),
{
    let l = n_lower(N as int);
    let upper = sheet_upper(points);
    let lower = sheet_lower(points);
    let p = upper_sum_upto(points, 6);
    lemma_sheet_reachable(N as int, points, 6);
    let pc = clipped_points(N as int, p);
    assert(upper_reachable(N as int, upper, pc)) by {
        if p >= bonus_threshold(N as int) {
            assert(sum_reachable(N as int, upper, 6, p));
        }
    }
    lemma_count_set_bound(upper);
    lemma_count_set_bound(lower);
    lemma_bits_value_bound(lower);
    let na = count_set(upper) as int;
    let nb = count_set(lower) as int;
    let ai = grid_cells(levels.above_map)[upper_key(pc, upper)] as int;
    assert(0 <= ai < levels.above@[na]@.len() && levels.above@[na]@[ai].1@ == upper);
    let bi = levels.below_map@[bits_value(lower) as int] as int;
    assert(0 <= bi < levels.below@[nb]@.len() && levels.below@[nb]@[bi]@ == lower);
    assert(lists_all_hands(N as int, hands@));
    let ti = hand_pos(hands, hand);
    assert(0 <= ti < hands@.len());
    let layer = layer_bytes(strats, l, na, nb, nt);
    assert(layer.len() == levels.above@[na]@.len() * levels.below@[nb]@.len() * hands@.len());
    lemma_offset_bound(ai, bi, ti, levels.above@[na]@.len() as int, levels.below@[nb]@.len() as int, hands@.len() as int);
    if nt == 0 && (exists|c: int| 0 <= c < points.len() && (#[trigger] points[c]) is None) {
        let c = choose|c: int| 0 <= c < points.len() && (#[trigger] points[c]) is None;
        if c < 6 {
            assert(!upper[c]);
        } else {
            assert(!lower[c - 6]);
        }
        assert(some_open(levels.above@[na]@[ai].1@, levels.below@[nb]@[bi]@));
        assert(stored_at(levels, hands, strats, na, nb, 0, ai, bi, ti) == layer[(ai * levels.below@[nb]@.len() + bi)
            * hands@.len() + ti]);
    }
}

/// Plays one turn by the stored strategies with the given dice (see
/// `turn_result`): `first` is the first roll; the `k` dice of a reroll show
/// the first `k` faces of `again` (at two rolls left) or `again2` (at one).
/// On success the category is written; otherwise the sheet stays.
pub fn play_turn<const N: usize>(
    levels: &LevelTables<N>,
    hands: &HandTable<N>,
    strats: &Vec<Vec<u8>>,
    points: &mut Vec<Option<usize>>,
    first: &DiceThrow,
    again: &[u8],
    again2: &[u8],
) -> (r: bool)
    requires
        levels.wf(),
        hands.wf(),
        strats@.len() == 21 * (n_lower(N as int) + 1),
        old(points)@.len() == n_categories(N as int),
        forall|c: int| 0 <= c < old(points)@.len() ==> small_entry(#[trigger] old(points)@[c]),
        is_hand(N as int, first.dice@),
        again@.len() == N,
        again2@.len() == N,
        proper_faces(again@),
        proper_faces(again2@),
    ensures
        r == turn_result(*levels, *hands, strats@, old(points)@, first.dice@, again@, again2@) is Some,
        r ==> final(points)@ == turn_result(*levels, *hands, strats@, old(points)@, first.dice@, again@, again2@)->0,
        r ==> exists|c: int| #[trigger] fills_one(N as int, old(points)@, final(points)@, c),
        !r ==> final(points)@ == old(points)@,
        strats_fit(*levels, *hands, strats@) && (forall|c: int|
            0 <= c < old(points)@.len() ==> fair_entry(N as int, c, #[trigger] old(points)@[c])) && (exists|c: int|
            0 <= c < old(points)@.len() && (#[trigger] old(points)@[c]) is None) ==> r,
{
    let cells: usize = if N == 5 {
        15
    } else {
        20
    };
    let ghost pts = points@;
    let mut upper = [false; 6];
    let mut above: usize = 0;
    let mut c: usize = 0;
    while c < 6
        invariant
            c <= 6,
            cells == n_categories(N as int),
            points@ == pts,
            pts.len() == cells,
            above == upper_sum_upto(pts, c as int),
            above <= 100 * c,
            forall|k: int| 0 <= k < cells ==> small_entry(#[trigger] pts[k]),
            forall|k: int| 0 <= k < c ==> upper@[k] == (#[trigger] pts[k]) is Some,
            forall|k: int| c <= k < 6 ==> !#[trigger] upper@[k],
        decreases 6 - c,
    {
        assert(small_entry(pts[c as int]));
        if let Some(x) = points[c] {
            upper[c] = true;
            above = above + x;
        }
        c = c + 1;
    }
    assert(upper@ =~= sheet_upper(pts));
    let mut lower: Vec<bool> = Vec::new();
    let mut c: usize = 6;
    while c < cells
        invariant
            6 <= c <= cells,
            cells == n_categories(N as int),
            points@ == pts,
            pts.len() == cells,
            lower@.len() == c - 6,
            forall|k: int| 0 <= k < c - 6 ==> lower@[k] == (#[trigger] pts[k + 6]) is Some,
        decreases cells - c,
    {
        lower.push(points[c].is_some());
        c = c + 1;
    }
    assert(lower@ =~= sheet_lower(pts));
    let b2 = match lookup(levels, hands, strats, &upper, above, &lower, first, 2) {
        Some(b) => b,
        None => {
            proof {
                if strats_fit(*levels, *hands, strats@) && (forall|c: int|
                    0 <= c < pts.len() ==> fair_entry(N as int, c, #[trigger] pts[c])) {
                    lemma_sheet_byte(*levels, *hands, strats@, pts, first.dice@, 2);
                }
            }
            return false;
        },
    };
    let h1 = reroll_by::<N>(first, b2, again);
    let b1 = match lookup(levels, hands, strats, &upper, above, &lower, &h1, 1) {
        Some(b) => b,
        None => {
            proof {
                if strats_fit(*levels, *hands, strats@) && (forall|c: int|
                    0 <= c < pts.len() ==> fair_entry(N as int, c, #[trigger] pts[c])) {
                    lemma_sheet_byte(*levels, *hands, strats@, pts, h1.dice@, 1);
                }
            }
            return false;
        },
    };
    let h2 = reroll_by::<N>(&h1, b1, again2);
    let b0 = match lookup(levels, hands, strats, &upper, above, &lower, &h2, 0) {
        Some(b) => b,
        None => {
            proof {
                if strats_fit(*levels, *hands, strats@) && (forall|c: int|
                    0 <= c < pts.len() ==> fair_entry(N as int, c, #[trigger] pts[c])) {
                    lemma_sheet_byte(*levels, *hands, strats@, pts, h2.dice@, 0);
                }
            }
            return false;
        },
    };
    proof {
        if strats_fit(*levels, *hands, strats@) && (forall|c: int|
            0 <= c < pts.len() ==> fair_entry(N as int, c, #[trigger] pts[c])) && (exists|c: int|
            0 <= c < pts.len() && (#[trigger] pts[c]) is None) {
            lemma_sheet_byte(*levels, *hands, strats@, pts, h2.dice@, 0);
            if b0 < 6 {
                assert(!sheet_upper(pts)[b0 as int]);
            } else {
                assert(!sheet_lower(pts)[b0 - 6]);
            }
        }
    }
    match Strategy::from_byte(b0) {
        Strategy::Cell(c) => {
            if c >= cells || points[c].is_some() {
                return false;
            }
            let score = h2.cell_score::<N>(c);
            points.set(c, Some(score));
            assert(fills_one(N as int, pts, points@, c as int)) by {
                assert(is_hand(N as int, h2.dice@));
            }
            true
        },
        Strategy::Rethrow(_) => false,
    }
}

/// Plays one game with fair dice by the stored strategies (see
/// `play_turn`). `None` when a byte does not fit its state; never when the
/// strategies fit the tables.
fn play<const N: usize>(levels: &LevelTables<N>, hands: &HandTable<N>, strats: &Vec<Vec<u8>>) -> (r:
    Option<Vec<Option<usize>>>)
    requires
        levels.wf(),
        hands.wf(),
        strats@.len() == 21 * (n_lower(N as int) + 1),
    ensures
        r matches Some(s) ==> is_played_sheet(N as int, s@),
        r matches Some(s) ==> played_by(*levels, *hands, strats@, s@),
        r matches Some(s) ==> forall|c: int| 0 <= c < s@.len() ==> small_entry(#[trigger] s@[c]),
        strats_fit(*levels, *hands, strats@) ==> r is Some,
{
    let cells: usize = if N == 5 {
        15
    } else {
        20
    };
    let mut points: Vec<Option<usize>> = Vec::new();
    while points.len() < cells
        invariant
            points@.len() <= cells,
            forall|c: int| 0 <= c < points@.len() ==> (#[trigger] points@[c]) is None,
        decreases cells - points@.len(),
    {
        points.push(None);
    }
    proof {
        lemma_written_count_empty(points@);
    }
    assert(points@ =~= empty_sheet(N as int));
    let ghost mut hist: Seq<Seq<Option<usize>>> = seq![points@];
    let ghost mut rolls: Seq<(Seq<usize>, Seq<u8>, Seq<u8>)> = Seq::empty();
    let mut turn: usize = 0;
    while turn < cells
        invariant
            is_history(*levels, *hands, strats@, hist, rolls),
            rolls.len() == turn,
            hist.last() == points@,
            levels.wf(),
            hands.wf(),
            strats@.len() == 21 * (n_lower(N as int) + 1),
            cells == n_categories(N as int),
            turn <= cells,
            points@.len() == cells,
            written_count(points@) == turn,
            forall|c: int| 0 <= c < cells ==> small_entry(#[trigger] points@[c]),
            forall|c: int| 0 <= c < cells ==> fair_entry(N as int, c, #[trigger] points@[c]),
        decreases cells - turn,
    {
        let first = DiceThrow::throw(N);
        let t1 = DiceThrow::throw(N);
        let t2 = DiceThrow::throw(N);
        let again = t1.into_ordered_dice();
        let again2 = t2.into_ordered_dice();
        proof {
            lemma_ordered_dice_counts(t1.dice@);
            lemma_ordered_dice_counts(t2.dice@);
            if forall|c: int| 0 <= c < points@.len() ==> (#[trigger] points@[c]) is Some {
                lemma_written_count_all(points@);
            }
        }
        let ghost old_points = points@;
        if !play_turn(levels, hands, strats, &mut points, &first, again.as_slice(), again2.as_slice()) {
            return None;
        }
        proof {
            let d = (first.dice@, again@, again2@);
            let old_hist = hist;
            let old_rolls = rolls;
            hist = hist.push(points@);
            rolls = rolls.push(d);
            assert(fair_rolls::<N>(d));
            assert forall|t: int| 0 <= t < rolls.len() implies fair_rolls::<N>(#[trigger] rolls[t]) && turn_result(
                *levels,
                *hands,
                strats@,
                hist[t],
                rolls[t].0,
                rolls[t].1,
                rolls[t].2,
            ) == Some(hist[t + 1]) by {
                if t < old_rolls.len() {
                    assert(rolls[t] == old_rolls[t]);
                    assert(hist[t] == old_hist[t] && hist[t + 1] == old_hist[t + 1]);
                } else {
                    assert(hist[t] == old_points);
                }
            }
            assert(hist[0] == old_hist[0]);
        }
        proof {
            let c = choose|c: int| #[trigger] fills_one(N as int, old_points, points@, c);
            lemma_written_count_update(old_points, c, points@[c]->0);
            assert(points@ == old_points.update(c, Some(points@[c]->0)));
            assert forall|k: int| 0 <= k < cells implies small_entry(#[trigger] points@[k]) && fair_entry(
                N as int,
                k,
                points@[k],
            ) by {
                if k != c {
                    assert(points@[k] == old_points[k]);
                }
            }
        }
        turn = turn + 1;
    }
    proof {
        lemma_written_count_full(points@);
        assert(is_history(*levels, *hands, strats@, hist, rolls));
    }
    Some(points)
}

proof fn lemma_sheet_total_fits(n: int, s: Seq<Option<usize>>)
    requires
        n == 5 || n == 6,
        s.len() == n_categories(n),
        forall|c: int| 0 <= c < s.len() ==> small_entry(#[trigger] s[c]),
    ensures
        written_sum(s) + 100 <= 2100,
        0 <= sheet_total(n, s) <= 2100,
{
    lemma_written_sum_bound(s);
    crate::guide::lemma_written_sum_nonneg(s);
}

/// Fills `scores` with the final scores of games with `N` dice played by
/// the stored strategies (see `play`). `false` when a stored byte does not
/// fit its state, which cannot happen when the strategies fit the tables.
fn simulate_n<const N: usize>(
    scores: &mut [u32],
    levels: &LevelTables<N>,
    hands: &HandTable<N>,
    strats: &Vec<Vec<u8>>,
) -> (r: bool)
    requires
        levels.wf(),
        hands.wf(),
        strats@.len() == 21 * (n_lower(N as int) + 1),
    ensures
        final(scores)@.len() == old(scores)@.len(),
        strats_fit(*levels, *hands, strats@) ==> r,
        r ==> forall|i: int|
            0 <= i < final(scores)@.len() ==> is_game_total(*levels, *hands, strats@, #[trigger] final(scores)@[i]),
        r ==> forall|i: int| 0 <= i < final(scores)@.len() ==> #[trigger] final(scores)@[i] <= max_total(N as int),
{
    let mut i: usize = 0;
    while i < scores.len()
        invariant
            levels.wf(),
            hands.wf(),
            strats@.len() == 21 * (n_lower(N as int) + 1),
            i <= scores@.len(),
            scores@.len() == old(scores)@.len(),
            forall|j: int|
                0 <= j < i ==> is_game_total(*levels, *hands, strats@, #[trigger] scores@[j]),
            forall|j: int| 0 <= j < i ==> #[trigger] scores@[j] <= max_total(N as int),
        decreases scores@.len() - i,
    {
        match play(levels, hands, strats) {
            Some(sheet) => {
                proof {
                    lemma_sheet_total_fits(N as int, sheet@);
                    lemma_sheet_total_max(N as int, sheet@);
                }
                let total = get_total_score::<N>(sheet.as_slice());
                scores[i] = total as u32;
                assert(is_played_sheet(N as int, sheet@) && scores@[i as int] == sheet_total(N as int, sheet@));
                assert(is_game_total(*levels, *hands, strats@, scores@[i as int]));
            },
            None => {
                return false;
            },
        }
        i = i + 1;
    }
    true
}

/// Final scores of games with five dice, one per entry (see `simulate_n`).
pub fn simulate_n_5(scores: &mut [u32], levels: &LevelTables<5>, hands: &HandTable<5>, strats: &Vec<Vec<u8>>) -> (r:
    bool)
    requires
        levels.wf(),
        hands.wf(),
        strats@.len() == 210,
    ensures
        final(scores)@.len() == old(scores)@.len(),
        strats_fit(*levels, *hands, strats@) ==> r,
        r ==> forall|i: int|
            0 <= i < final(scores)@.len() ==> is_game_total(*levels, *hands, strats@, #[trigger] final(scores)@[i]),
        r ==> forall|i: int| 0 <= i < final(scores)@.len() ==> #[trigger] final(scores)@[i] <= 374,
{
    simulate_n::<5>(scores, levels, hands, strats)
}

/// Final scores of games with six dice, one per entry (see `simulate_n`).
pub fn simulate_n_6(scores: &mut [u32], levels: &LevelTables<6>, hands: &HandTable<6>, strats: &Vec<Vec<u8>>) -> (r:
    bool)
    requires
        levels.wf(),
        hands.wf(),
        strats@.len() == 315,
    ensures
        final(scores)@.len() == old(scores)@.len(),
        strats_fit(*levels, *hands, strats@) ==> r,
        r ==> forall|i: int|
            0 <= i < final(scores)@.len() ==> is_game_total(*levels, *hands, strats@, #[trigger] final(scores)@[i]),
        r ==> forall|i: int| 0 <= i < final(scores)@.len() ==> #[trigger] final(scores)@[i] <= 649,
{
    simulate_n::<6>(scores, levels, hands, strats)
}

/// Fills each row of `scores` with the points per category of a game with
/// `N` dice played by the stored strategies (see `play`). `false` when a
/// stored byte does not fit its state.
fn simulate_n_full<const N: usize, const CELLS: usize>(
    scores: &mut [[u32; CELLS]],
    levels: &LevelTables<N>,
    hands: &HandTable<N>,
    strats: &Vec<Vec<u8>>,
) -> (r: bool)
    requires
        CELLS == n_categories(N as int),
        levels.wf(),
        hands.wf(),
        strats@.len() == 21 * (n_lower(N as int) + 1),
    ensures
        final(scores)@.len() == old(scores)@.len(),
        strats_fit(*levels, *hands, strats@) ==> r,
        r ==> forall|i: int| 0 <= i < final(scores)@.len() ==> is_game_row(*levels, *hands, strats@, (#[trigger] final(scores)@[i])@),
        r ==> forall|i: int, c: int|
            0 <= i < final(scores)@.len() && 0 <= c < CELLS ==> #[trigger] final(scores)@[i]@[c] <= category_max(N as int, c),
{
    let mut i: usize = 0;
    while i < scores.len()
        invariant
            CELLS == n_categories(N as int),
            levels.wf(),
            hands.wf(),
            strats@.len() == 21 * (n_lower(N as int) + 1),
            i <= scores@.len(),
            scores@.len() == old(scores)@.len(),
            forall|j: int| 0 <= j < i ==> is_game_row(*levels, *hands, strats@, (#[trigger] scores@[j])@),
            forall|j: int, c: int| 0 <= j < i && 0 <= c < CELLS ==> #[trigger] scores@[j]@[c] <= category_max(N as int, c),
        decreases scores@.len() - i,
    {
        match play(levels, hands, strats) {
            Some(sheet) => {
                let mut row = [0u32; CELLS];
                let mut c: usize = 0;
                while c < CELLS
                    invariant
                        c <= CELLS,
                        sheet@.len() == CELLS,
                        row@.len() == CELLS,
                        forall|k: int| 0 <= k < CELLS ==> (#[trigger] sheet@[k]) is Some,
                        forall|k: int| 0 <= k < CELLS ==> small_entry(#[trigger] sheet@[k]),
                        forall|k: int| 0 <= k < c ==> row@[k] == (#[trigger] sheet@[k])->0,
                        is_played_sheet(N as int, sheet@),
                        N == 5 || N == 6,
                        forall|k: int| 0 <= k < c ==> #[trigger] row@[k] <= category_max(N as int, k),
                    decreases CELLS - c,
                {
                    let x = sheet[c].unwrap();
                    assert(small_entry(sheet@[c as int]));
                    proof {
                        let h = choose|h: Seq<usize>| #[trigger] is_hand(N as int, h) && x == category_score(
                            N as int,
                            h,
                            c as int,
                        );
                        assert(achievable(N as int, c as int, sheet@[c as int]->0));
                        lemma_category_max(N as int, h, c as int);
                    }
                    row[c] = x as u32;
                    c = c + 1;
                }
                scores[i] = row;
                assert(is_game_row(*levels, *hands, strats@, scores@[i as int]@)) by {
                    assert(is_played_sheet(N as int, sheet@));
                }
            },
            None => {
                return false;
            },
        }
        i = i + 1;
    }
    true
}

/// The points per category of games with five dice, one game per row (see
/// `simulate_n_full`).
pub fn simulate_n_5_full(
    scores: &mut [[u32; 15]],
    levels: &LevelTables<5>,
    hands: &HandTable<5>,
    strats: &Vec<Vec<u8>>,
) -> (r: bool)
    requires
        levels.wf(),
        hands.wf(),
        strats@.len() == 210,
    ensures
        final(scores)@.len() == old(scores)@.len(),
        strats_fit(*levels, *hands, strats@) ==> r,
        r ==> forall|i: int| 0 <= i < final(scores)@.len() ==> is_game_row(*levels, *hands, strats@, (#[trigger] final(scores)@[i])@),
        r ==> forall|i: int, c: int|
            0 <= i < final(scores)@.len() && 0 <= c < 15 ==> #[trigger] final(scores)@[i]@[c] <= category_max(5, c),
{
    simulate_n_full::<5, 15>(scores, levels, hands, strats)
}

/// The points per category of games with six dice, one game per row (see
/// `simulate_n_full`).
pub fn simulate_n_6_full(
    scores: &mut [[u32; 20]],
    levels: &LevelTables<6>,
    hands: &HandTable<6>,
    strats: &Vec<Vec<u8>>,
) -> (r: bool)
    requires
        levels.wf(),
        hands.wf(),
        strats@.len() == 315,
    ensures
        final(scores)@.len() == old(scores)@.len(),
        strats_fit(*levels, *hands, strats@) ==> r,
        r ==> forall|i: int| 0 <= i < final(scores)@.len() ==> is_game_row(*levels, *hands, strats@, (#[trigger] final(scores)@[i])@),
        r ==> forall|i: int, c: int|
            0 <= i < final(scores)@.len() && 0 <= c < 20 ==> #[trigger] final(scores)@[i]@[c] <= category_max(6, c),
{
    simulate_n_full::<6, 20>(scores, levels, hands, strats)
}

} // verus!
