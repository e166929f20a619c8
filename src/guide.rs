use crate::level_ordering::{
    grid_cells,
    bonus_threshold, bonus_value, upper_key, upper_reachable, LevelTables,
};
use crate::util::{bits_value, count_set};
use crate::yatzy::{bonus_at, clipped_points, State};
use vstd::prelude::*;
use vstd::string::StringSliceAdditionalSpecFns;

verus! {

/// What a strategy byte tells the player: reroll the dice of a mask over the
/// ordered expansion of the hand (bit `i` set: roll die `i` again), or fill a
/// category.
#[derive(Clone, Copy, Debug, PartialEq, Eq)]
pub enum Strategy {
    Rethrow(u8),
    Cell(usize),
}

/// What a strategy byte means.
pub open spec fn strategy_of_byte(byte: u8) -> Strategy {
    if byte >= 128 {
        Strategy::Rethrow((byte - 128) as u8)
    } else {
        Strategy::Cell(byte as usize)
    }
}

impl Strategy {
    /// Reads a strategy byte: the high bit tells a reroll mask (the low seven
    /// bits) from a category index.
    pub fn from_byte(byte: u8) -> (r: Strategy)
        ensures
            r == strategy_of_byte(byte),
    {
        if byte >= 128 {
            Strategy::Rethrow(byte - 128)
        } else {
            Strategy::Cell(byte as usize)
        }
    }

    /// The byte that stores this strategy.
    pub fn to_byte(&self) -> (r: u8)
        requires
            match *self {
                Strategy::Rethrow(m) => m < 128,
                Strategy::Cell(c) => c < 128,
            },
        ensures
            strategy_of_byte(r) == *self,
            match *self {
                Strategy::Rethrow(m) => r == m + 128,
                Strategy::Cell(c) => r == c,
            },
    {
        match *self {
            Strategy::Rethrow(m) => m + 128,
            Strategy::Cell(c) => c as u8,
        }
    }

    /// Whether this strategy can be followed in `state` with `n_dice` dice:
    /// a category must be one of the game's and still open; a reroll mask may
    /// name only the dice that are there.
    pub fn is_valid_for<const CELLS: usize>(&self, state: &State<CELLS>, n_dice: usize) -> (r: bool)
        requires
            n_dice <= 6,
        ensures
            r == match *self {
                Strategy::Rethrow(m) => m < crate::util::two_pow(n_dice as nat),
                Strategy::Cell(c) => c < CELLS && !state.cells@[c as int],
            },
    {
        match *self {
            Strategy::Rethrow(m) => {
                let mut limit: u8 = 1;
                let mut j: usize = 0;
                proof {
                    reveal_with_fuel(crate::util::two_pow, 7);
                    crate::util::lemma_two_pow_monotonic(n_dice as nat, 6);
                }
                while j < n_dice
                    invariant
                        j <= n_dice <= 6,
                        limit == crate::util::two_pow(j as nat),
                        crate::util::two_pow(n_dice as nat) <= 64,
                    decreases n_dice - j,
                {
                    proof {
                        crate::util::lemma_two_pow_monotonic((j + 1) as nat, n_dice as nat);
                    }
                    limit = limit * 2;
                    j = j + 1;
                }
                m < limit
            },
            Strategy::Cell(c) => c < CELLS && !state.cells[c],
        }
    }
}

/// The sum of the scores written so far.
pub open spec fn written_sum(points: Seq<Option<usize>>) -> int
    decreases points.len(),
{
    if points.len() == 0 {
        0
    } else {
        written_sum(points.drop_last()) + match points.last() {
            Some(x) => x as int,
            None => 0,
        }
    }
}

/// The sum of the upper-section scores written so far.
pub open spec fn written_upper_sum(points: Seq<Option<usize>>) -> int {
    written_sum(points.subrange(0, if points.len() < 6 { points.len() as int } else { 6 }))
}

proof fn lemma_written_sum_prefix(points: Seq<Option<usize>>, i: int)
    requires
        0 <= i <= points.len(),
    ensures
        0 <= written_sum(points.subrange(0, i)) <= written_sum(points),
    decreases points.len() - i,
{
    if i < points.len() {
        lemma_written_sum_prefix(points, i + 1);
        assert(points.subrange(0, i + 1).drop_last() == points.subrange(0, i));
        lemma_written_sum_nonneg(points.subrange(0, i));
    } else {
        assert(points.subrange(0, i) == points);
        lemma_written_sum_nonneg(points);
    }
}

pub proof fn lemma_written_sum_nonneg(points: Seq<Option<usize>>)
    ensures
        written_sum(points) >= 0,
    decreases points.len(),
{
    if points.len() > 0 {
        lemma_written_sum_nonneg(points.drop_last());
    }
}

/// The sum of a score sheet: every written score plus the bonus.
pub fn get_total_score<const N: usize>(points: &[Option<usize>]) -> (r: usize)
    requires
        N == 5 || N == 6,
        written_sum(points@) + 100 <= usize::MAX,
    ensures
        r == written_sum(points@) + bonus_at(N as int, written_upper_sum(points@)),
{
    let mut total: usize = 0;
    let mut above: usize = 0;
    let mut i: usize = 0;
    while i < points.len()
        invariant
            i <= points@.len(),
            written_sum(points@) + 100 <= usize::MAX,
            total == written_sum(points@.subrange(0, i as int)),
            i <= 6 ==> above == total,
            i > 6 ==> above == written_sum(points@.subrange(0, 6)),
        decreases points@.len() - i,
    {
        proof {
            lemma_written_sum_prefix(points@, i + 1);
            assert(points@.subrange(0, i + 1).drop_last() == points@.subrange(0, i as int));
        }
        if let Some(x) = points[i] {
            total = total + x;
        }
        if i < 6 {
            above = total;
        }
        i = i + 1;
    }
    assert(points@.subrange(0, points@.len() as int) == points@);
    let bonus: usize = if N == 5 {
        if above >= 63 {
            50
        } else {
            0
        }
    } else {
        if above >= 84 {
            100
        } else {
            0
        }
    };
    total + bonus
}

/// The table coordinates of a game state with five dice: filled upper and
/// lower counts, the sizes of their groups, and the positions of the upper
/// and lower configurations in them.
pub fn get_state_indices5(tables: &LevelTables<5>, cells: &[bool], points_above: usize) -> (r: [usize; 6])
    requires
        tables.wf(),
        cells@.len() == 15,
        upper_reachable(5, cells@.subrange(0, 6), clipped_points(5, points_above as int)),
    ensures
        r[0] == count_set(cells@.subrange(0, 6)),
        r[1] == count_set(cells@.subrange(6, 15)),
        r[2] == tables.above@[r[0] as int]@.len(),
        r[3] == tables.below@[r[1] as int]@.len(),
        r[4] == grid_cells(tables.above_map)[upper_key(clipped_points(5, points_above as int), cells@.subrange(0, 6))],
        r[5] == tables.below_map@[bits_value(cells@.subrange(6, 15)) as int],
        r[4] < r[2],
        r[5] < r[3],
{
    let state = State::<15>::from_dyn(cells, points_above);
    let na = state.get_n_above();
    let nb = state.get_n_below();
    let la = tables.above[na].len();
    let lb = tables.below[nb].len();
    let ai = state.get_above_index(tables);
    let bi = state.get_below_index(tables);
    [na, nb, la, lb, ai, bi]
}

/// The table coordinates of a game state with six dice (see
/// `get_state_indices5`).
pub fn get_state_indices6(tables: &LevelTables<6>, cells: &[bool], points_above: usize) -> (r: [usize; 6])
    requires
        tables.wf(),
        cells@.len() == 20,
        upper_reachable(6, cells@.subrange(0, 6), clipped_points(6, points_above as int)),
    ensures
        r[0] == count_set(cells@.subrange(0, 6)),
        r[1] == count_set(cells@.subrange(6, 20)),
        r[2] == tables.above@[r[0] as int]@.len(),
        r[3] == tables.below@[r[1] as int]@.len(),
        r[4] == grid_cells(tables.above_map)[upper_key(clipped_points(6, points_above as int), cells@.subrange(0, 6))],
        r[5] == tables.below_map@[bits_value(cells@.subrange(6, 20)) as int],
        r[4] < r[2],
        r[5] < r[3],
{
    let state = State::<20>::from_dyn(cells, points_above);
    let na = state.get_n_above();
    let nb = state.get_n_below();
    let la = tables.above[na].len();
    let lb = tables.below[nb].len();
    let ai = state.get_above_index(tables);
    let bi = state.get_below_index(tables);
    [na, nb, la, lb, ai, bi]
}

/// The category that a two-letter name stands for in the game with `n`
/// dice: `1s`..`6s` the upper ones, `1p`..`3p` pairs, `3l`..`5l` of a kind,
/// `ls`, `ss`, `fs` straights, `ht` hut, `hs` house, `tr` tower, `ch` or `sj`
/// chance, `yz` yatzy.
pub open spec fn category_code(n: int, a: u8, b: u8) -> Option<usize> {
    if b == 115 && 49 <= a <= 54 {
        Some((a - 49) as usize)
    } else if a == 49 && b == 112 {
        Some(6)
    } else if a == 50 && b == 112 {
        Some(7)
    } else if a == 51 && b == 112 && n == 6 {
        Some(8)
    } else if a == 51 && b == 108 {
        Some(if n == 5 { 8 } else { 9 })
    } else if a == 52 && b == 108 {
        Some(if n == 5 { 9 } else { 10 })
    } else if a == 53 && b == 108 && n == 6 {
        Some(11)
    } else if a == 108 && b == 115 {
        Some(if n == 5 { 10 } else { 12 })
    } else if a == 115 && b == 115 {
        Some(if n == 5 { 11 } else { 13 })
    } else if a == 102 && b == 115 && n == 6 {
        Some(14)
    } else if a == 104 && b == 116 && n == 6 {
        Some(15)
    } else if a == 104 && b == 115 {
        Some(if n == 5 { 12 } else { 16 })
    } else if a == 116 && b == 114 && n == 6 {
        Some(17)
    } else if (a == 99 && b == 104) || (a == 115 && b == 106) {
        Some(if n == 5 { 13 } else { 18 })
    } else if a == 121 && b == 122 {
        Some(if n == 5 { 14 } else { 19 })
    } else {
        None
    }
}

/// The category named by `name` (see `category_code`), if any.
pub open spec fn yatzy_index_of(n: int, name: Seq<u8>) -> Option<usize> {
    if name.len() == 2 {
        category_code(n, name[0], name[1])
    } else {
        None
    }
}

/// The category that a short name stands for in the game with `N` dice.
pub fn get_yatzy_index<const N: usize>(name: &str) -> (r: Option<usize>)
    requires
        N == 5 || N == 6,
    ensures
        r == yatzy_index_of(N as int, name.spec_bytes()),
{
    let b = name.as_bytes();
    if b.len() != 2 {
        return None;
    }
    // the two letters, compared by their ASCII codes
    let (x, y) = (b[0], b[1]);
    let five = N == 5;
    if y == 115u8 && 49u8 <= x && x <= 54u8 {
        Some((x - 49u8) as usize)
    } else if x == 49u8 && y == 112u8 {
        Some(6)
    } else if x == 50u8 && y == 112u8 {
        Some(7)
    } else if x == 51u8 && y == 112u8 && !five {
        Some(8)
    } else if x == 51u8 && y == 108u8 {
        Some(if five { 8 } else { 9 })
    } else if x == 52u8 && y == 108u8 {
        Some(if five { 9 } else { 10 })
    } else if x == 53u8 && y == 108u8 && !five {
        Some(11)
    } else if x == 108u8 && y == 115u8 {
        Some(if five { 10 } else { 12 })
    } else if x == 115u8 && y == 115u8 {
        Some(if five { 11 } else { 13 })
    } else if x == 102u8 && y == 115u8 && !five {
        Some(14)
    } else if x == 104u8 && y == 116u8 && !five {
        Some(15)
    } else if x == 104u8 && y == 115u8 {
        Some(if five { 12 } else { 16 })
    } else if x == 116u8 && y == 114u8 && !five {
        Some(17)
    } else if (x == 99u8 && y == 104u8) || (x == 115u8 && y == 106u8) {
        Some(if five { 13 } else { 18 })
    } else if x == 121u8 && y == 122u8 {
        Some(if five { 14 } else { 19 })
    } else {
        None
    }
}

/// The name of category `ind` in the game with `n` dice.
pub open spec fn category_name(n: int, ind: int) -> &'static str {
    if ind == 0 {
        "ones"
    } else if ind == 1 {
        "twos"
    } else if ind == 2 {
        "threes"
    } else if ind == 3 {
        "fours"
    } else if ind == 4 {
        "fives"
    } else if ind == 5 {
        "sixes"
    } else if ind == 6 {
        "1 pair"
    } else if ind == 7 {
        "2 pairs"
    } else if n == 5 {
        if ind == 8 {
            "3 of a kind"
        } else if ind == 9 {
            "4 of a kind"
        } else if ind == 10 {
            "small straight"
        } else if ind == 11 {
            "large straight"
        } else if ind == 12 {
            "house"
        } else if ind == 13 {
            "chance"
        } else {
            "yatzy"
        }
    } else {
        if ind == 8 {
            "3 pairs"
        } else if ind == 9 {
            "3 of a kind"
        } else if ind == 10 {
            "4 of a kind"
        } else if ind == 11 {
            "5 of a kind"
        } else if ind == 12 {
            "small straight"
        } else if ind == 13 {
            "large straight"
        } else if ind == 14 {
            "full straight"
        } else if ind == 15 {
            "hut"
        } else if ind == 16 {
            "house"
        } else if ind == 17 {
            "tower"
        } else if ind == 18 {
            "chance"
        } else {
            "yatzy"
        }
    }
}

/// The name of category `ind` in the game with `N` dice.
pub fn get_index_name<const N: usize>(ind: usize) -> (r: &'static str)
    requires
        N == 5 || N == 6,
        ind < crate::dice_throw::n_categories(N as int),
    ensures
        r == category_name(N as int, ind as int),
{
    match (N, ind) {
        (_, 0) => "ones",
        (_, 1) => "twos",
        (_, 2) => "threes",
        (_, 3) => "fours",
        (_, 4) => "fives",
        (_, 5) => "sixes",
        (_, 6) => "1 pair",
        (_, 7) => "2 pairs",
        (6, 8) => "3 pairs",
        (5, 8) | (6, 9) => "3 of a kind",
        (5, 9) | (6, 10) => "4 of a kind",
        (6, 11) => "5 of a kind",
        (5, 10) | (6, 12) => "small straight",
        (5, 11) | (6, 13) => "large straight",
        (6, 14) => "full straight",
        (6, 15) => "hut",
        (5, 12) | (6, 16) => "house",
        (6, 17) => "tower",
        (5, 13) | (6, 18) => "chance",
        _ => "yatzy",
    }
}

} // verus!
