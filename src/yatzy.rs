use crate::dice_throw::{category_score, dice_total, n_categories, DiceThrow};
use crate::level_ordering::{
    grid_cells, grid_get,
    bonus_threshold, bonus_value, lists_upper_level, n_lower, points_above, upper_key,
    upper_reachable, LevelTables,
};
use crate::util::{
    bits_value, count_flags, count_set, count_true, lemma_bits_value_bound, lemma_count_set_bound,
    parse_binary, two_pow,
};
use vstd::prelude::*;

verus! {

/// A game state: which categories are filled and the running upper-section
/// sum.
#[derive(Clone, Copy, Debug)]
pub struct State<const CELLS: usize> {
    pub cells: [bool; CELLS],
    pub points_above: usize,
}

/// The state of the game with five dice.
pub type YatzyState5 = State<15>;

/// The state of the game with six dice.
pub type YatzyState6 = State<20>;

/// How many dice the game with `cells` categories uses.
pub open spec fn dice_of_cells(cells: int) -> int {
    if cells == 15 {
        5
    } else {
        6
    }
}

/// The bonus held at upper sum `p` in the game with `n` dice.
pub open spec fn bonus_at(n: int, p: int) -> int {
    if p >= bonus_threshold(n) {
        bonus_value(n)
    } else {
        0
    }
}

/// The upper sum as the tables see it: sums at or above the threshold are
/// folded to the threshold.
pub open spec fn clipped_points(n: int, p: int) -> int {
    if p >= bonus_threshold(n) {
        bonus_threshold(n)
    } else {
        p
    }
}

/// How many categories the game with `N` dice has.
pub fn cell_from_dice<const N: usize>() -> (r: usize)
    requires
        N == 5 || N == 6,
    ensures
        r == n_categories(N as int),
{
    if N == 5 {
        15
    } else {
        20
    }
}

/// How many dice the game with `CELLS` categories uses.
pub fn dice_from_cells<const CELLS: usize>() -> (r: usize)
    requires
        CELLS == 15 || CELLS == 20,
    ensures
        r == dice_of_cells(CELLS as int),
        n_categories(r as int) == CELLS,
{
    if CELLS == 15 {
        5
    } else {
        6
    }
}

impl<const CELLS: usize> Default for State<CELLS> {
    /// The start of a game (see `new`).
    fn default() -> (r: Self)
        ensures
            forall|i: int| 0 <= i < CELLS ==> !r.cells@[i],
            r.points_above == 0,
    {
        Self::new()
    }
}

impl<const CELLS: usize> State<CELLS> {
    /// The flags of the upper categories.
    pub open spec fn above_flags(&self) -> Seq<bool> {
        self.cells@.subrange(0, 6)
    }

    /// The flags of the lower categories.
    pub open spec fn below_flags(&self) -> Seq<bool> {
        self.cells@.subrange(6, CELLS as int)
    }

    /// The start of a game: nothing filled, no points.
    pub fn new() -> (r: Self)
        ensures
            forall|i: int| 0 <= i < CELLS ==> !r.cells@[i],
            r.points_above == 0,
    {
        State { cells: [false; CELLS], points_above: 0 }
    }

    /// The state with the given flags and upper sum.
    pub fn from_dyn(dyn_cells: &[bool], points_above: usize) -> (r: Self)
        requires
            dyn_cells@.len() == CELLS,
        ensures
            r.cells@ == dyn_cells@,
            r.points_above == points_above,
    {
        let mut cells = [false; CELLS];
        let mut i: usize = 0;
        while i < CELLS
            invariant
                i <= CELLS,
                dyn_cells@.len() == CELLS,
                cells@.len() == CELLS,
                forall|k: int| 0 <= k < i ==> cells@[k] == dyn_cells@[k],
            decreases CELLS - i,
        {
            cells[i] = dyn_cells[i];
            i = i + 1;
        }
        assert(cells@ == dyn_cells@);
        State { cells, points_above }
    }

    /// The flags of the upper categories.
    pub fn get_above_cells(&self) -> (r: [bool; 6])
        requires
            CELLS >= 6,
        ensures
            r@ == self.above_flags(),
    {
        let r = [
            self.cells[0],
            self.cells[1],
            self.cells[2],
            self.cells[3],
            self.cells[4],
            self.cells[5],
        ];
        assert(r@ == self.above_flags());
        r
    }

    /// The flags of the lower categories.
    pub fn get_below_cells(&self) -> (r: Vec<bool>)
        requires
            CELLS >= 6,
        ensures
            r@ == self.below_flags(),
    {
        let mut r: Vec<bool> = Vec::new();
        let mut i: usize = 6;
        while i < CELLS
            invariant
                6 <= i <= CELLS,
                r@ == self.cells@.subrange(6, i as int),
            decreases CELLS - i,
        {
            r.push(self.cells[i]);
            i = i + 1;
            assert(r@ == self.cells@.subrange(6, i as int));
        }
        r
    }

    /// The upper and lower flags.
    pub fn _split_cells(&self) -> (r: ([bool; 6], Vec<bool>))
        requires
            CELLS >= 6,
        ensures
            r.0@ == self.above_flags(),
            r.1@ == self.below_flags(),
    {
        (self.get_above_cells(), self.get_below_cells())
    }

    /// How many categories are filled.
    pub fn _get_n_cells(&self) -> (r: usize)
        ensures
            r == count_set(self.cells@),
    {
        count_true(self.cells)
    }

    /// How many upper categories are filled.
    pub fn get_n_above(&self) -> (r: usize)
        requires
            CELLS >= 6,
        ensures
            r == count_set(self.above_flags()),
            r <= 6,
    {
        proof {
            lemma_count_set_bound(self.above_flags());
        }
        count_true(self.get_above_cells())
    }

    /// How many lower categories are filled.
    pub fn get_n_below(&self) -> (r: usize)
        requires
            CELLS >= 6,
        ensures
            r == count_set(self.below_flags()),
            r <= CELLS - 6,
    {
        proof {
            lemma_count_set_bound(self.below_flags());
        }
        let below = self.get_below_cells();
        count_flags(below.as_slice())
    }

    /// The bonus held in this state.
    fn get_bonus(&self) -> (r: usize)
        requires
            CELLS == 15 || CELLS == 20,
        ensures
            r == bonus_at(dice_of_cells(CELLS as int), self.points_above as int),
    {
        if CELLS == 15 {
            if self.points_above >= 63 {
                50
            } else {
                0
            }
        } else {
            if self.points_above >= 84 {
                100
            } else {
                0
            }
        }
    }

    /// Fills category `i` with hand `throw` of `N` dice and returns the
    /// reward: the points scored plus any bonus this fill earns.
    fn fill<const N: usize>(&mut self, i: usize, throw: DiceThrow) -> (r: usize)
        requires
            N == dice_of_cells(CELLS as int),
            CELLS == 15 || CELLS == 20,
            i < CELLS,
            dice_total(throw.dice@) == N,
            old(self).points_above <= usize::MAX - 100,
        ensures
            final(self).cells@ == old(self).cells@.update(i as int, true),
            final(self).points_above == old(self).points_above + if i < 6 {
                category_score(N as int, throw.dice@, i as int)
            } else {
                0
            },
            r == category_score(N as int, throw.dice@, i as int) + bonus_at(N as int, final(self).points_above as int)
                - bonus_at(N as int, old(self).points_above as int),
    {
        let points = throw.cell_score::<N>(i);
        let old_bonus = self.get_bonus();
        if i < 6 {
            self.points_above = self.points_above + points;
        }
        let new_bonus = self.get_bonus();
        self.cells[i] = true;
        points + new_bonus - old_bonus
    }
}

/// Clipping the upper sum is truthful: two states with the same filled
/// categories whose upper sums both reach the threshold hold the same bonus
/// and stand at the same place in the upper levels, so they share every score
/// and strategy.
pub proof fn lemma_bonus_boundary<const CELLS: usize>(a: State<CELLS>, b: State<CELLS>)
    requires
        CELLS == 15 || CELLS == 20,
        a.cells == b.cells,
        a.points_above >= bonus_threshold(dice_of_cells(CELLS as int)),
        b.points_above >= bonus_threshold(dice_of_cells(CELLS as int)),
    ensures
        clipped_points(dice_of_cells(CELLS as int), a.points_above as int) == clipped_points(
            dice_of_cells(CELLS as int),
            b.points_above as int,
        ),
        upper_key(clipped_points(dice_of_cells(CELLS as int), a.points_above as int), a.above_flags())
            == upper_key(clipped_points(dice_of_cells(CELLS as int), b.points_above as int), b.above_flags()),
        bonus_at(dice_of_cells(CELLS as int), a.points_above as int) == bonus_at(
            dice_of_cells(CELLS as int),
            b.points_above as int,
        ),
{
}

impl State<15> {
    /// Fills category `i` with hand `throw` and returns the reward: the points
    /// scored plus any bonus this fill earns.
    pub fn modify_cell(&mut self, i: usize, throw: DiceThrow) -> (r: usize)
        requires
            i < 15,
            dice_total(throw.dice@) == 5,
            old(self).points_above <= usize::MAX - 100,
        ensures
            final(self).cells@ == old(self).cells@.update(i as int, true),
            final(self).points_above == old(self).points_above + if i < 6 {
                category_score(5, throw.dice@, i as int)
            } else {
                0
            },
            r == category_score(5, throw.dice@, i as int) + bonus_at(5, final(self).points_above as int)
                - bonus_at(5, old(self).points_above as int),
    {
        self.fill::<5>(i, throw)
    }

    /// The state after filling category `i` with `throw`, and the reward.
    pub fn set_cell(&self, i: usize, throw: DiceThrow) -> (r: (Self, usize))
        requires
            i < 15,
            dice_total(throw.dice@) == 5,
            self.points_above <= usize::MAX - 100,
        ensures
            r.0.cells@ == self.cells@.update(i as int, true),
            r.0.points_above == self.points_above + if i < 6 {
                category_score(5, throw.dice@, i as int)
            } else {
                0
            },
            r.1 == category_score(5, throw.dice@, i as int) + bonus_at(5, r.0.points_above as int)
                - bonus_at(5, self.points_above as int),
    {
        let mut state = State { cells: self.cells, points_above: self.points_above };
        let score = state.modify_cell(i, throw);
        (state, score)
    }

    /// The position of this state's upper configuration within its group.
    pub fn get_above_index(&self, tables: &LevelTables<5>) -> (r: usize)
        requires
            tables.wf(),
            upper_reachable(5, self.above_flags(), clipped_points(5, self.points_above as int)),
        ensures
            r == grid_cells(tables.above_map)[upper_key(clipped_points(5, self.points_above as int), self.above_flags())],
            r < tables.above@[count_set(self.above_flags()) as int]@.len(),
            tables.above@[count_set(self.above_flags()) as int]@[r as int].0 == clipped_points(5, self.points_above as int),
            tables.above@[count_set(self.above_flags()) as int]@[r as int].1@ == self.above_flags(),
    {
        let pts = if self.points_above < 63 {
            self.points_above
        } else {
            63
        };
        let above = self.get_above_cells();
        proof {
            reveal_with_fuel(two_pow, 7);
            lemma_bits_value_bound(above@);
        }
        grid_get(&tables.above_map, pts, parse_binary(&above))
    }

    /// The position of this state's lower configuration within its group.
    pub fn get_below_index(&self, tables: &LevelTables<5>) -> (r: usize)
        requires
            tables.wf(),
        ensures
            r == tables.below_map@[bits_value(self.below_flags()) as int],
            r < tables.below@[count_set(self.below_flags()) as int]@.len(),
            tables.below@[count_set(self.below_flags()) as int]@[r as int]@ == self.below_flags(),
    {
        let below = self.get_below_cells();
        proof {
            reveal_with_fuel(two_pow, 10);
            lemma_bits_value_bound(below@);
            lemma_count_set_bound(below@);
        }
        tables.below_map[parse_binary(below.as_slice())]
    }
}

impl State<20> {
    /// Fills category `i` with hand `throw` and returns the reward: the points
    /// scored plus any bonus this fill earns.
    pub fn modify_cell(&mut self, i: usize, throw: DiceThrow) -> (r: usize)
        requires
            i < 20,
            dice_total(throw.dice@) == 6,
            old(self).points_above <= usize::MAX - 100,
        ensures
            final(self).cells@ == old(self).cells@.update(i as int, true),
            final(self).points_above == old(self).points_above + if i < 6 {
                category_score(6, throw.dice@, i as int)
            } else {
                0
            },
            r == category_score(6, throw.dice@, i as int) + bonus_at(6, final(self).points_above as int)
                - bonus_at(6, old(self).points_above as int),
    {
        self.fill::<6>(i, throw)
    }

    /// The state after filling category `i` with `throw`, and the reward.
    pub fn set_cell(&self, i: usize, throw: DiceThrow) -> (r: (Self, usize))
        requires
            i < 20,
            dice_total(throw.dice@) == 6,
            self.points_above <= usize::MAX - 100,
        ensures
            r.0.cells@ == self.cells@.update(i as int, true),
            r.0.points_above == self.points_above + if i < 6 {
                category_score(6, throw.dice@, i as int)
            } else {
                0
            },
            r.1 == category_score(6, throw.dice@, i as int) + bonus_at(6, r.0.points_above as int)
                - bonus_at(6, self.points_above as int),
    {
        let mut state = State { cells: self.cells, points_above: self.points_above };
        let score = state.modify_cell(i, throw);
        (state, score)
    }

    /// The position of this state's upper configuration within its group.
    pub fn get_above_index(&self, tables: &LevelTables<6>) -> (r: usize)
        requires
            tables.wf(),
            upper_reachable(6, self.above_flags(), clipped_points(6, self.points_above as int)),
        ensures
            r == grid_cells(tables.above_map)[upper_key(clipped_points(6, self.points_above as int), self.above_flags())],
            r < tables.above@[count_set(self.above_flags()) as int]@.len(),
            tables.above@[count_set(self.above_flags()) as int]@[r as int].0 == clipped_points(6, self.points_above as int),
            tables.above@[count_set(self.above_flags()) as int]@[r as int].1@ == self.above_flags(),
    {
        let pts = if self.points_above < 84 {
            self.points_above
        } else {
            84
        };
        let above = self.get_above_cells();
        proof {
            reveal_with_fuel(two_pow, 7);
            lemma_bits_value_bound(above@);
        }
        grid_get(&tables.above_map, pts, parse_binary(&above))
    }

    /// The position of this state's lower configuration within its group.
    pub fn get_below_index(&self, tables: &LevelTables<6>) -> (r: usize)
        requires
            tables.wf(),
        ensures
            r == tables.below_map@[bits_value(self.below_flags()) as int],
            r < tables.below@[count_set(self.below_flags()) as int]@.len(),
            tables.below@[count_set(self.below_flags()) as int]@[r as int]@ == self.below_flags(),
    {
        let below = self.get_below_cells();
        proof {
            reveal_with_fuel(two_pow, 15);
            lemma_bits_value_bound(below@);
            lemma_count_set_bound(below@);
        }
        tables.below_map[parse_binary(below.as_slice())]
    }
}

} // verus!
