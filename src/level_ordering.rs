use crate::dice_throw::n_categories;
use crate::util::{
    bits_of, bits_value, count_flags, count_set, count_true, lemma_bits_value_bound,
    lemma_bits_value_injective, lemma_count_set_bound, lemma_two_pow_monotonic, parse_binary,
    two_pow,
};
use vstd::arithmetic::div_mod::lemma_fundamental_div_mod;
use ndarray::Array2;
use vstd::prelude::*;

verus! {

/// A two-dimensional table of ndarray, held in a private field and reached
/// only through the functions below.
#[verifier::external_body]
pub struct Grid {
    cells: Array2<usize>,
}

/// What a grid holds, row by row: the entry at row `i`, column `j` stands at
/// `i * cols + j`.
pub uninterp spec fn grid_cells(a: Grid) -> Seq<usize>;

/// The shape `(rows, cols)` of a grid.
pub uninterp spec fn grid_shape(a: Grid) -> (nat, nat);

/// Relies on ndarray's `Array2::zeros`: a table of the given shape whose
/// entries are all zero. It panics when either length, or the product of
/// the non-zero lengths, overflows `isize`.
#[verifier::external_body]
fn grid_zeros(rows: usize, cols: usize) -> (r: Grid)
    requires
        rows <= isize::MAX,
        cols <= isize::MAX,
        rows * cols <= isize::MAX,
    ensures
        grid_shape(r) == (rows as nat, cols as nat),
        grid_cells(r) == Seq::new((rows * cols) as nat, |_i: int| 0usize),
{
    Grid { cells: Array2::zeros([rows, cols]) }
}

/// Relies on ndarray's indexing `a[[i, j]]`: the entry at row `i`, column
/// `j`. It panics out of bounds.
#[verifier::external_body]
pub(crate) fn grid_get(a: &Grid, i: usize, j: usize) -> (r: usize)
    requires
        i < grid_shape(*a).0,
        j < grid_shape(*a).1,
        grid_cells(*a).len() == grid_shape(*a).0 * grid_shape(*a).1,
    ensures
        r == grid_cells(*a)[i * grid_shape(*a).1 + j],
{
    a.cells[[i, j]]
}

/// Relies on ndarray's mutable indexing `a[[i, j]] = v`: only that entry
/// changes. It panics out of bounds.
#[verifier::external_body]
fn grid_set(a: &mut Grid, i: usize, j: usize, v: usize)
    requires
        i < grid_shape(*old(a)).0,
        j < grid_shape(*old(a)).1,
        grid_cells(*old(a)).len() == grid_shape(*old(a)).0 * grid_shape(*old(a)).1,
    ensures
        grid_shape(*final(a)) == grid_shape(*old(a)),
        grid_cells(*final(a)) == grid_cells(*old(a)).update(i * grid_shape(*old(a)).1 + j, v),
{
    a.cells[[i, j]] = v;
}

/// The upper-section sum at which the bonus is earned in the game with `n`
/// dice.
pub open spec fn bonus_threshold(n: int) -> int {
    if n == 5 {
        63
    } else {
        84
    }
}

/// The bonus for reaching the threshold.
pub open spec fn bonus_value(n: int) -> int {
    if n == 5 {
        50
    } else {
        100
    }
}

/// The bonus threshold of the game with `N` dice.
pub fn points_above<const N: usize>() -> (r: usize)
    requires
        N == 5 || N == 6,
    ensures
        r == bonus_threshold(N as int),
{
    if N == 5 {
        63
    } else {
        84
    }
}

/// Whether the upper categories flagged in `filled` (face `f` at flag
/// `f - 1`) can sum to exactly `p` when each of the faces below `f` is
/// scored with between 0 and `n` dice, and face `f` (if flagged) with fewer
/// than `c` dice.
pub open spec fn sums_to(n: int, filled: Seq<bool>, f: int, c: nat, p: int) -> bool
    decreases f, c,
{
    if f <= 0 {
        p == 0
    } else if !filled[f - 1] {
        sums_to(n, filled, f - 1, (n + 1) as nat, p)
    } else if c == 0 {
        false
    } else {
        sums_to(n, filled, f - 1, (n + 1) as nat, p - f * (c - 1)) || sums_to(
            n,
            filled,
            f,
            (c - 1) as nat,
            p,
        )
    }
}

/// Whether the upper categories flagged in `filled` among the faces `1..=f`,
/// each scored with between 0 and `n` dice, can sum to exactly `p`.
pub open spec fn sum_reachable(n: int, filled: Seq<bool>, f: int, p: int) -> bool {
    sums_to(n, filled, f, (n + 1) as nat, p)
}

/// Whether the filled upper categories `filled` can stand at the clipped
/// upper sum `pc`: sums at or above the threshold all count as the threshold.
pub open spec fn upper_reachable(n: int, filled: Seq<bool>, pc: int) -> bool {
    &&& 0 <= pc <= bonus_threshold(n)
    &&& if pc < bonus_threshold(n) {
        sum_reachable(n, filled, 6, pc)
    } else {
        exists|q: int| q >= bonus_threshold(n) && #[trigger] sum_reachable(n, filled, 6, q)
    }
}

/// Where an upper configuration is stored in the map from configurations to
/// positions: by clipped sum, then by mask (the ones flag as bit 0).
pub open spec fn upper_key(pc: int, filled: Seq<bool>) -> int {
    pc * 64 + bits_value(filled)
}

/// The flags read as a binary number with the first flag (ones) as the most
/// significant bit: the sum of `flag[i] * 2^(len - 1 - i)`. On six flags this
/// orders them lexicographically, `false` before `true`.
pub open spec fn lex_value(filled: Seq<bool>) -> nat {
    bits_value(Seq::new(filled.len(), |i: int| filled[filled.len() - 1 - i]))
}

/// Where an upper configuration stands in the order of upper levels: by
/// clipped sum, then lexicographically by its flags.
pub open spec fn upper_order(pc: int, filled: Seq<bool>) -> int {
    pc * 64 + lex_value(filled)
}

/// Whether `(pc, filled)` is an upper level with `k` categories filled.
pub open spec fn is_upper_level(n: int, k: int, pc: int, filled: Seq<bool>) -> bool {
    filled.len() == 6 && count_set(filled) == k && upper_reachable(n, filled, pc)
}

/// `lv` lists every upper level with `k` categories filled once, in order of
/// `upper_order`.
pub open spec fn lists_upper_level(n: int, k: int, lv: Seq<(usize, [bool; 6])>) -> bool {
    &&& forall|i: int| 0 <= i < lv.len() ==> is_upper_level(n, k, #[trigger] lv[i].0 as int, lv[i].1@)
    &&& forall|i: int, j: int|
        0 <= i < j < lv.len() ==> upper_order(#[trigger] lv[i].0 as int, lv[i].1@) < upper_order(
            #[trigger] lv[j].0 as int,
            lv[j].1@,
        )
    &&& forall|pc: int, filled: Seq<bool>| #[trigger]
        is_upper_level(n, k, pc, filled) ==> exists|i: int|
            0 <= i < lv.len() && lv[i].0 == pc && lv[i].1@ == filled
}

pub proof fn lemma_sum_reachable_bound(n: int, filled: Seq<bool>, f: int, c: nat, p: int)
    requires
        0 <= n <= 6,
        0 <= f <= 6,
        c <= n + 1,
        sums_to(n, filled, f, c, p),
    ensures
        0 <= p <= 36 * f,
    decreases f, c,
{
    if f > 0 {
        if !filled[f - 1] {
            lemma_sum_reachable_bound(n, filled, f - 1, (n + 1) as nat, p);
        } else if sums_to(n, filled, f - 1, (n + 1) as nat, p - f * (c - 1)) {
            lemma_sum_reachable_bound(n, filled, f - 1, (n + 1) as nat, p - f * (c - 1));
            assert(0 <= f * (c - 1) <= 36) by (nonlinear_arith)
                requires
                    0 <= c - 1 <= n <= 6,
                    0 < f <= 6,
            ;
        } else {
            lemma_sum_reachable_bound(n, filled, f, (c - 1) as nat, p);
        }
    }
}

proof fn lemma_six_flags_bound(filled: Seq<bool>)
    requires
        filled.len() == 6,
    ensures
        bits_value(filled) < 64,
{
    lemma_bits_value_bound(filled);
    reveal_with_fuel(two_pow, 7);
}

/// The six flags of a mask below 64, bit 0 first.
fn mask_flags(m: usize) -> (r: [bool; 6])
    requires
        m < 64,
    ensures
        bits_value(r@) == m,
{
    proof {
        reveal_with_fuel(two_pow, 7);
    }
    let v = bits_of(m, 6);
    let r = [v[0], v[1], v[2], v[3], v[4], v[5]];
    assert(r@ == v@);
    r
}

/// Two sets of six flags with one `lex_value` are equal; the value is below 64.
proof fn lemma_lex_value(a: Seq<bool>, b: Seq<bool>)
    requires
        a.len() == 6,
        b.len() == 6,
    ensures
        lex_value(a) < 64,
        lex_value(a) == lex_value(b) ==> a == b,
{
    let ra = Seq::new(6, |i: int| a[5 - i]);
    let rb = Seq::new(6, |i: int| b[5 - i]);
    lemma_six_flags_bound(ra);
    if lex_value(a) == lex_value(b) {
        lemma_bits_value_injective(ra, rb);
        assert forall|i: int| 0 <= i < 6 implies a[i] == b[i] by {
            assert(ra[5 - i] == rb[5 - i]);
        }
        assert(a =~= b);
    }
}

/// The six flags whose `lex_value` is `m`, for `m` below 64.
fn lex_mask_flags(m: usize) -> (r: [bool; 6])
    requires
        m < 64,
    ensures
        lex_value(r@) == m,
{
    let f = mask_flags(m);
    let r = [f[5], f[4], f[3], f[2], f[1], f[0]];
    assert(Seq::new(6, |i: int| r@[5 - i]) =~= f@);
    r
}

/// For each sum `p < 217`, whether the flagged upper categories can sum to it.
fn reachable_sums<const N: usize>(filled: &[bool; 6]) -> (r: Vec<bool>)
    requires
        N <= 6,
    ensures
        r@.len() == 217,
        forall|p: int| 0 <= p < 217 ==> #[trigger] r@[p] == sum_reachable(N as int, filled@, 6, p),
{
    let mut reach: Vec<bool> = Vec::new();
    while reach.len() < 217
        invariant
            reach@.len() <= 217,
            forall|p: int| 0 <= p < reach@.len() ==> #[trigger] reach@[p] == (p == 0),
        decreases 217 - reach@.len(),
    {
        let first = reach.len() == 0;
        reach.push(first);
    }
    let mut f: usize = 1;
    while f <= 6
        invariant
            1 <= f <= 7,
            N <= 6,
            reach@.len() == 217,
            forall|p: int| 0 <= p < 217 ==> #[trigger] reach@[p] == sum_reachable(N as int, filled@, f - 1, p),
        decreases 7 - f,
    {
        if filled[f - 1] {
            let mut next: Vec<bool> = Vec::new();
            let mut p: usize = 0;
            while p < 217
                invariant
                    1 <= f <= 6,
                    N <= 6,
                    filled@[f - 1],
                    reach@.len() == 217,
                    forall|q: int| 0 <= q < 217 ==> #[trigger] reach@[q] == sum_reachable(N as int, filled@, f - 1, q),
                    p <= 217,
                    next@.len() == p,
                    forall|q: int| 0 <= q < p ==> #[trigger] next@[q] == sum_reachable(N as int, filled@, f as int, q),
                decreases 217 - p,
            {
                let mut found = false;
                let mut x: usize = 0;
                while x <= N
                    invariant
                        1 <= f <= 6,
                        N <= 6,
                        p < 217,
                        x <= N + 1,
                        filled@[f - 1],
                        reach@.len() == 217,
                        forall|q: int| 0 <= q < 217 ==> #[trigger] reach@[q] == sum_reachable(N as int, filled@, f - 1, q),
                        found == sums_to(N as int, filled@, f as int, x as nat, p as int),
                    decreases N + 1 - x,
                {
                    assert(f * x <= 36) by (nonlinear_arith)
                        requires
                            f <= 6,
                            x <= 6,
                    ;
                    let fx = f * x;
                    if fx <= p {
                        if reach[p - fx] {
                            found = true;
                        }
                    } else {
                        proof {
                            if sum_reachable(N as int, filled@, f - 1, p - f * x) {
                                lemma_sum_reachable_bound(N as int, filled@, f - 1, (N + 1) as nat, p - f * x);
                            }
                        }
                    }
                    assert(sums_to(N as int, filled@, f as int, (x + 1) as nat, p as int) == (sum_reachable(
                        N as int,
                        filled@,
                        f - 1,
                        p - f * x,
                    ) || sums_to(N as int, filled@, f as int, x as nat, p as int)));
                    x = x + 1;
                }
                assert(found == sum_reachable(N as int, filled@, f as int, p as int));
                next.push(found);
                p = p + 1;
            }
            reach = next;
        } else {
            assert forall|p: int| 0 <= p < 217 implies #[trigger] reach@[p] == sum_reachable(N as int, filled@, f as int, p) by {
            }
        }
        f = f + 1;
    }
    reach
}

/// For every upper configuration, at its `upper_key`, whether it can occur.
fn upper_reach_table<const N: usize>() -> (r: Vec<bool>)
    requires
        N == 5 || N == 6,
    ensures
        r@.len() == (bonus_threshold(N as int) + 1) * 64,
        forall|pc: int, filled: Seq<bool>|
            0 <= pc <= bonus_threshold(N as int) && filled.len() == 6 ==> r@[upper_key(pc, filled)]
                == #[trigger] upper_reachable(N as int, filled, pc),
{
    let t = points_above::<N>();
    let size = (t + 1) * 64;
    let mut r: Vec<bool> = Vec::new();
    while r.len() < size
        invariant
            r@.len() <= size,
        decreases size - r@.len(),
    {
        r.push(false);
    }
    let mut m: usize = 0;
    while m < 64
        invariant
            N == 5 || N == 6,
            t == bonus_threshold(N as int),
            size == (t + 1) * 64,
            m <= 64,
            r@.len() == size,
            forall|pc: int, filled: Seq<bool>|
                0 <= pc <= t && filled.len() == 6 && bits_value(filled) < m ==> r@[upper_key(pc, filled)]
                    == #[trigger] upper_reachable(N as int, filled, pc),
        decreases 64 - m,
    {
        let flags = mask_flags(m);
        let sums = reachable_sums::<N>(&flags);
        let mut high = false;
        let mut q: usize = t;
        while q < 217
            invariant
                t <= q <= 217,
                sums@.len() == 217,
                forall|p: int| 0 <= p < 217 ==> #[trigger] sums@[p] == sum_reachable(N as int, flags@, 6, p),
                high == exists|y: int| t <= y < q && #[trigger] sum_reachable(N as int, flags@, 6, y),
            decreases 217 - q,
        {
            if sums[q] {
                high = true;
            }
            q = q + 1;
        }
        assert(high == exists|y: int| y >= t && #[trigger] sum_reachable(N as int, flags@, 6, y)) by {
            if exists|y: int| y >= t && #[trigger] sum_reachable(N as int, flags@, 6, y) {
                let y = choose|y: int| y >= t && #[trigger] sum_reachable(N as int, flags@, 6, y);
                lemma_sum_reachable_bound(N as int, flags@, 6, (N + 1) as nat, y);
            }
        }
        let ghost before = r@;
        let mut pc: usize = 0;
        while pc <= t
            invariant
                N == 5 || N == 6,
                t == bonus_threshold(N as int),
                size == (t + 1) * 64,
                m < 64,
                pc <= t + 1,
                r@.len() == size,
                bits_value(flags@) == m,
                sums@.len() == 217,
                forall|p: int| 0 <= p < 217 ==> #[trigger] sums@[p] == sum_reachable(N as int, flags@, 6, p),
                high == exists|y: int| y >= t && #[trigger] sum_reachable(N as int, flags@, 6, y),
                forall|k: int| 0 <= k < size && k % 64 != m ==> #[trigger] r@[k] == before[k],
                forall|p: int| 0 <= p < pc ==> #[trigger] r@[p * 64 + m] == upper_reachable(N as int, flags@, p),
            decreases t + 1 - pc,
        {
            let v = if pc < t {
                sums[pc]
            } else {
                high
            };
            r.set(pc * 64 + m, v);
            pc = pc + 1;
        }
        assert forall|p: int, filled: Seq<bool>|
            0 <= p <= t && filled.len() == 6 && bits_value(filled) < m + 1 implies r@[upper_key(p, filled)]
            == #[trigger] upper_reachable(N as int, filled, p) by {
            lemma_six_flags_bound(filled);
            if bits_value(filled) == m {
                lemma_bits_value_injective(filled, flags@);
                assert(r@[p * 64 + m] == upper_reachable(N as int, flags@, p));
            } else {
                assert((p * 64 + bits_value(filled)) % 64 == bits_value(filled) as int);
                assert(r@[upper_key(p, filled)] == before[upper_key(p, filled)]);
            }
        }
        m = m + 1;
    }
    assert forall|pc: int, filled: Seq<bool>|
        0 <= pc <= bonus_threshold(N as int) && filled.len() == 6 implies r@[upper_key(pc, filled)]
        == #[trigger] upper_reachable(N as int, filled, pc) by {
        lemma_six_flags_bound(filled);
    }
    r
}

/// The six flags of every `lex_value` below 64, by value.
fn all_mask_flags() -> (r: Vec<[bool; 6]>)
    ensures
        r@.len() == 64,
        forall|m: int| 0 <= m < 64 ==> lex_value(#[trigger] r@[m]@) == m,
{
    let mut r: Vec<[bool; 6]> = Vec::new();
    while r.len() < 64
        invariant
            r@.len() <= 64,
            forall|m: int| 0 <= m < r@.len() ==> lex_value(#[trigger] r@[m]@) == m,
        decreases 64 - r@.len(),
    {
        let f = lex_mask_flags(r.len());
        r.push(f);
    }
    r
}

/// The upper levels with `k` categories filled, in order.
fn upper_group<const N: usize>(k: usize, reach: &Vec<bool>, flags: &Vec<[bool; 6]>) -> (r: Vec<(usize, [bool; 6])>)
    requires
        N == 5 || N == 6,
        reach@.len() == (bonus_threshold(N as int) + 1) * 64,
        forall|pc: int, filled: Seq<bool>|
            0 <= pc <= bonus_threshold(N as int) && filled.len() == 6 ==> reach@[upper_key(pc, filled)]
                == #[trigger] upper_reachable(N as int, filled, pc),
        flags@.len() == 64,
        forall|m: int| 0 <= m < 64 ==> lex_value(#[trigger] flags@[m]@) == m,
    ensures
        lists_upper_level(N as int, k as int, r@),
{
    let t = points_above::<N>();
    let size = (t + 1) * 64;
    let mut r: Vec<(usize, [bool; 6])> = Vec::new();
    let mut key: usize = 0;
    while key < size
        invariant
            N == 5 || N == 6,
            t == bonus_threshold(N as int),
            size == (t + 1) * 64,
            key <= size,
            reach@.len() == size,
            forall|pc: int, filled: Seq<bool>|
                0 <= pc <= t && filled.len() == 6 ==> reach@[upper_key(pc, filled)]
                    == #[trigger] upper_reachable(N as int, filled, pc),
            flags@.len() == 64,
            forall|m: int| 0 <= m < 64 ==> lex_value(#[trigger] flags@[m]@) == m,
            forall|i: int| 0 <= i < r@.len() ==> is_upper_level(N as int, k as int, #[trigger] r@[i].0 as int, r@[i].1@)
                && upper_order(r@[i].0 as int, r@[i].1@) < key,
            forall|i: int, j: int|
                0 <= i < j < r@.len() ==> upper_order(#[trigger] r@[i].0 as int, r@[i].1@) < upper_order(
                    #[trigger] r@[j].0 as int,
                    r@[j].1@,
                ),
            forall|pc: int, filled: Seq<bool>| #[trigger]
                is_upper_level(N as int, k as int, pc, filled) && upper_order(pc, filled) < key ==> exists|i: int|
                    0 <= i < r@.len() && r@[i].0 == pc && r@[i].1@ == filled,
        decreases size - key,
    {
        let pc = key / 64;
        let m = key % 64;
        let f = flags[m];
        proof {
            lemma_fundamental_div_mod(key as int, 64);
            lemma_count_set_bound(f@);
        }
        assert(upper_order(pc as int, f@) == key);
        proof {
            reveal_with_fuel(two_pow, 7);
            lemma_six_flags_bound(f@);
        }
        let reach_key = pc * 64 + parse_binary(&f);
        let ghost old_r = r@;
        if reach[reach_key] && count_true(f) == k {
            r.push((pc, f));
            assert(r@[r@.len() - 1].0 == pc && r@[r@.len() - 1].1@ == f@);
        }
        assert forall|p: int, filled: Seq<bool>| #[trigger]
            is_upper_level(N as int, k as int, p, filled) && upper_order(p, filled) < key + 1 implies exists|i: int|
            0 <= i < r@.len() && r@[i].0 == p && r@[i].1@ == filled by {
            lemma_lex_value(filled, f@);
            if upper_order(p, filled) == key {
                assert(p == pc);
                assert(r@[r@.len() - 1].0 == p && r@[r@.len() - 1].1@ == filled);
            } else {
                let i = choose|i: int| 0 <= i < old_r.len() && old_r[i].0 == p && old_r[i].1@ == filled;
                assert(r@[i] == old_r[i]);
            }
        }
        key = key + 1;
    }
    assert forall|pc: int, filled: Seq<bool>| #[trigger]
        is_upper_level(N as int, k as int, pc, filled) implies exists|i: int|
        0 <= i < r@.len() && r@[i].0 == pc && r@[i].1@ == filled by {
        lemma_lex_value(filled, filled);
        assert(upper_order(pc, filled) < size);
    }
    r
}

/// The upper levels, grouped by how many upper categories are filled.
pub fn a_levels<const N: usize>() -> (r: Vec<Vec<(usize, [bool; 6])>>)
    requires
        N == 5 || N == 6,
    ensures
        r@.len() == 7,
        forall|k: int| 0 <= k <= 6 ==> lists_upper_level(N as int, k, #[trigger] r@[k]@),
{
    let reach = upper_reach_table::<N>();
    let flags = all_mask_flags();
    let mut r: Vec<Vec<(usize, [bool; 6])>> = Vec::new();
    while r.len() < 7
        invariant
            N == 5 || N == 6,
            r@.len() <= 7,
            reach@.len() == (bonus_threshold(N as int) + 1) * 64,
            forall|pc: int, filled: Seq<bool>|
                0 <= pc <= bonus_threshold(N as int) && filled.len() == 6 ==> reach@[upper_key(pc, filled)]
                    == #[trigger] upper_reachable(N as int, filled, pc),
            flags@.len() == 64,
            forall|m: int| 0 <= m < 64 ==> lex_value(#[trigger] flags@[m]@) == m,
            forall|k: int| 0 <= k < r@.len() ==> lists_upper_level(N as int, k, #[trigger] r@[k]@),
        decreases 7 - r@.len(),
    {
        let g = upper_group::<N>(r.len(), &reach, &flags);
        r.push(g);
    }
    r
}

/// How many lower categories the game with `n` dice has.
pub open spec fn n_lower(n: int) -> int {
    n_categories(n) - 6
}

/// `lv` lists every mask of `len` lower flags with `k` set once, in
/// increasing order.
pub open spec fn lists_lower_level(len: int, k: int, lv: Seq<Vec<bool>>) -> bool {
    &&& forall|i: int| 0 <= i < lv.len() ==> (#[trigger] lv[i])@.len() == len && count_set(lv[i]@) == k
    &&& forall|i: int, j: int|
        0 <= i < j < lv.len() ==> bits_value((#[trigger] lv[i])@) < bits_value((#[trigger] lv[j])@)
    &&& forall|filled: Seq<bool>|
        filled.len() == len && #[trigger] count_set(filled) == k ==> exists|i: int|
            0 <= i < lv.len() && lv[i]@ == filled
}

proof fn lemma_upper_key_injective(pa: int, f1: Seq<bool>, pb: int, f2: Seq<bool>)
    requires
        f1.len() == 6,
        f2.len() == 6,
        upper_key(pa, f1) == upper_key(pb, f2),
    ensures
        pa == pb,
        f1 == f2,
{
    lemma_six_flags_bound(f1);
    lemma_six_flags_bound(f2);
    lemma_bits_value_injective(f1, f2);
}

/// At the key of each upper level, its position within its group.
fn upper_map<const N: usize>(levels: &Vec<Vec<(usize, [bool; 6])>>) -> (r: Grid)
    requires
        N == 5 || N == 6,
        levels@.len() == 7,
        forall|k: int| 0 <= k <= 6 ==> lists_upper_level(N as int, k, #[trigger] levels@[k]@),
    ensures
        grid_shape(r) == ((bonus_threshold(N as int) + 1) as nat, 64nat),
        grid_cells(r).len() == (bonus_threshold(N as int) + 1) * 64,
        forall|pc: int, filled: Seq<bool>| #[trigger]
            upper_reachable(N as int, filled, pc) && filled.len() == 6 ==> {
                let i = grid_cells(r)[upper_key(pc, filled)] as int;
                let g = levels@[count_set(filled) as int]@;
                0 <= i < g.len() && g[i].0 == pc && g[i].1@ == filled
            },
{
    let t = points_above::<N>();
    let size = (t + 1) * 64;
    let mut r = grid_zeros(t + 1, 64);
    let mut k: usize = 0;
    while k < 7
        invariant
            N == 5 || N == 6,
            t == bonus_threshold(N as int),
            size == (t + 1) * 64,
            k <= 7,
            grid_cells(r).len() == size,
            grid_shape(r) == ((t + 1) as nat, 64nat),
            levels@.len() == 7,
            forall|k: int| 0 <= k <= 6 ==> lists_upper_level(N as int, k, #[trigger] levels@[k]@),
            forall|a: int, i: int|
                0 <= a < k && 0 <= i < levels@[a]@.len() ==> grid_cells(r)[upper_key(
                    #[trigger] levels@[a]@[i].0 as int,
                    levels@[a]@[i].1@,
                )] == i,
        decreases 7 - k,
    {
        let g = &levels[k];
        assert(lists_upper_level(N as int, k as int, g@));
        let mut i: usize = 0;
        while i < g.len()
            invariant
                N == 5 || N == 6,
                t == bonus_threshold(N as int),
                size == (t + 1) * 64,
                k < 7,
                i <= g@.len(),
                grid_cells(r).len() == size,
            grid_shape(r) == ((t + 1) as nat, 64nat),
                levels@.len() == 7,
                g == levels@[k as int],
                forall|k: int| 0 <= k <= 6 ==> lists_upper_level(N as int, k, #[trigger] levels@[k]@),
                forall|a: int, j: int|
                    0 <= a < k && 0 <= j < levels@[a]@.len() ==> grid_cells(r)[upper_key(
                        #[trigger] levels@[a]@[j].0 as int,
                        levels@[a]@[j].1@,
                    )] == j,
                forall|j: int| 0 <= j < i ==> grid_cells(r)[upper_key(#[trigger] g@[j].0 as int, g@[j].1@)] == j,
            decreases g@.len() - i,
        {
            let e = g[i];
            assert(is_upper_level(N as int, k as int, g@[i as int].0 as int, g@[i as int].1@));
            proof {
                reveal_with_fuel(two_pow, 7);
                lemma_six_flags_bound(e.1@);
            }
            let j = parse_binary(&e.1);
            let key = e.0 * 64 + j;
            let ghost before = grid_cells(r);
            grid_set(&mut r, e.0, j, i);
            assert forall|a: int, j: int|
                0 <= a < k && 0 <= j < levels@[a]@.len() implies grid_cells(r)[upper_key(
                #[trigger] levels@[a]@[j].0 as int,
                levels@[a]@[j].1@,
            )] == j by {
                let o = levels@[a]@[j];
                assert(lists_upper_level(N as int, a, levels@[a]@));
                assert(is_upper_level(N as int, a, o.0 as int, o.1@));
                lemma_six_flags_bound(o.1@);
                if upper_key(o.0 as int, o.1@) == key {
                    lemma_upper_key_injective(o.0 as int, o.1@, e.0 as int, e.1@);
                }
            }
            assert forall|j: int| 0 <= j < i + 1 implies grid_cells(r)[upper_key(#[trigger] g@[j].0 as int, g@[j].1@)] == j by {
                assert(is_upper_level(N as int, k as int, g@[j].0 as int, g@[j].1@));
                lemma_six_flags_bound(g@[j].1@);
                if j < i {
                    assert(upper_order(g@[j].0 as int, g@[j].1@) < upper_order(g@[i as int].0 as int, g@[i as int].1@));
                    if upper_key(g@[j].0 as int, g@[j].1@) == upper_key(g@[i as int].0 as int, g@[i as int].1@) {
                        lemma_upper_key_injective(g@[j].0 as int, g@[j].1@, g@[i as int].0 as int, g@[i as int].1@);
                    }
                }
            }
            i = i + 1;
        }
        k = k + 1;
    }
    assert forall|pc: int, filled: Seq<bool>| #[trigger]
        upper_reachable(N as int, filled, pc) && filled.len() == 6 implies {
        let i = grid_cells(r)[upper_key(pc, filled)] as int;
        let g = levels@[count_set(filled) as int]@;
        0 <= i < g.len() && g[i].0 == pc && g[i].1@ == filled
    } by {
        lemma_count_set_bound(filled);
        let c = count_set(filled) as int;
        assert(lists_upper_level(N as int, c, levels@[c]@));
        assert(is_upper_level(N as int, c, pc, filled));
        let j = choose|j: int| 0 <= j < levels@[c]@.len() && levels@[c]@[j].0 == pc && levels@[c]@[j].1@ == filled;
        assert(grid_cells(r)[upper_key(levels@[c]@[j].0 as int, levels@[c]@[j].1@)] == j);
    }
    r
}

/// `2^len`, for `len <= 14`.
fn two_pow_exec(len: usize) -> (r: usize)
    requires
        len <= 14,
    ensures
        r == two_pow(len as nat),
        r <= 16384,
{
    let mut r: usize = 1;
    let mut j: usize = 0;
    proof {
        lemma_two_pow_monotonic(len as nat, 14);
        reveal_with_fuel(two_pow, 15);
    }
    while j < len
        invariant
            j <= len <= 14,
            r == two_pow(j as nat),
            two_pow(len as nat) <= 16384,
        decreases len - j,
    {
        proof {
            lemma_two_pow_monotonic((j + 1) as nat, len as nat);
        }
        r = r * 2;
        j = j + 1;
    }
    r
}

/// The masks of `len` lower flags with `k` set, in increasing order.
fn lower_group(len: usize, k: usize) -> (r: Vec<Vec<bool>>)
    requires
        len <= 14,
    ensures
        lists_lower_level(len as int, k as int, r@),
{
    let size = two_pow_exec(len);
    let mut r: Vec<Vec<bool>> = Vec::new();
    let mut v: usize = 0;
    while v < size
        invariant
            len <= 14,
            size == two_pow(len as nat),
            v <= size,
            forall|i: int| 0 <= i < r@.len() ==> (#[trigger] r@[i])@.len() == len && count_set(r@[i]@) == k
                && bits_value(r@[i]@) < v,
            forall|i: int, j: int|
                0 <= i < j < r@.len() ==> bits_value((#[trigger] r@[i])@) < bits_value((#[trigger] r@[j])@),
            forall|filled: Seq<bool>|
                filled.len() == len && #[trigger] count_set(filled) == k && bits_value(filled) < v ==> exists|i: int|
                    0 <= i < r@.len() && r@[i]@ == filled,
        decreases size - v,
    {
        let bits = bits_of(v, len);
        let ghost old_r = r@;
        if count_flags(bits.as_slice()) == k {
            r.push(bits);
        }
        assert forall|filled: Seq<bool>|
            filled.len() == len && #[trigger] count_set(filled) == k && bits_value(filled) < v + 1 implies exists|i: int|
            0 <= i < r@.len() && r@[i]@ == filled by {
            if bits_value(filled) == v {
                lemma_bits_value_injective(filled, bits@);
                assert(r@[r@.len() - 1]@ == filled);
            } else {
                let i = choose|i: int| 0 <= i < old_r.len() && old_r[i]@ == filled;
                assert(r@[i] == old_r[i]);
            }
        }
        v = v + 1;
    }
    assert forall|filled: Seq<bool>| filled.len() == len && #[trigger] count_set(filled) == k implies exists|i: int|
        0 <= i < r@.len() && r@[i]@ == filled by {
        lemma_bits_value_bound(filled);
    }
    r
}

/// The lower levels for `len` lower categories, grouped by how many are
/// filled.
pub fn b_levels(len: usize) -> (r: Vec<Vec<Vec<bool>>>)
    requires
        len <= 14,
    ensures
        r@.len() == len + 1,
        forall|k: int| 0 <= k <= len ==> lists_lower_level(len as int, k, #[trigger] r@[k]@),
{
    let mut r: Vec<Vec<Vec<bool>>> = Vec::new();
    while r.len() <= len
        invariant
            len <= 14,
            r@.len() <= len + 1,
            forall|k: int| 0 <= k < r@.len() ==> lists_lower_level(len as int, k, #[trigger] r@[k]@),
        decreases len + 1 - r@.len(),
    {
        let g = lower_group(len, r.len());
        r.push(g);
    }
    r
}

/// At each lower mask, its position within its group.
fn lower_map(len: usize, levels: &Vec<Vec<Vec<bool>>>) -> (r: Vec<usize>)
    requires
        len <= 14,
        levels@.len() == len + 1,
        forall|k: int| 0 <= k <= len ==> lists_lower_level(len as int, k, #[trigger] levels@[k]@),
    ensures
        r@.len() == two_pow(len as nat),
        forall|filled: Seq<bool>| #[trigger] count_set(filled) <= len && filled.len() == len ==> {
            let i = r@[bits_value(filled) as int] as int;
            let g = levels@[count_set(filled) as int]@;
            0 <= i < g.len() && g[i]@ == filled
        },
{
    let size = two_pow_exec(len);
    let mut r: Vec<usize> = Vec::new();
    while r.len() < size
        invariant
            r@.len() <= size,
        decreases size - r@.len(),
    {
        r.push(0);
    }
    let mut k: usize = 0;
    while k <= len
        invariant
            len <= 14,
            size == two_pow(len as nat),
            k <= len + 1,
            r@.len() == size,
            levels@.len() == len + 1,
            forall|k: int| 0 <= k <= len ==> lists_lower_level(len as int, k, #[trigger] levels@[k]@),
            forall|a: int, i: int|
                0 <= a < k && 0 <= i < levels@[a]@.len() ==> r@[bits_value((#[trigger] levels@[a]@[i])@) as int] == i,
        decreases len + 1 - k,
    {
        let g = &levels[k];
        assert(lists_lower_level(len as int, k as int, g@));
        let mut i: usize = 0;
        while i < g.len()
            invariant
                len <= 14,
                size == two_pow(len as nat),
                k <= len,
                i <= g@.len(),
                r@.len() == size,
                levels@.len() == len + 1,
                g == levels@[k as int],
                forall|k: int| 0 <= k <= len ==> lists_lower_level(len as int, k, #[trigger] levels@[k]@),
                forall|a: int, j: int|
                    0 <= a < k && 0 <= j < levels@[a]@.len() ==> r@[bits_value((#[trigger] levels@[a]@[j])@) as int] == j,
                forall|j: int| 0 <= j < i ==> r@[bits_value((#[trigger] g@[j])@) as int] == j,
            decreases g@.len() - i,
        {
            assert(g@[i as int]@.len() == len);
            proof {
                lemma_bits_value_bound(g@[i as int]@);
            }
            let key = parse_binary(g[i].as_slice());
            r.set(key, i);
            assert forall|a: int, j: int|
                0 <= a < k && 0 <= j < levels@[a]@.len() implies r@[bits_value((#[trigger] levels@[a]@[j])@) as int] == j by {
                let o = levels@[a]@[j];
                assert(lists_lower_level(len as int, a, levels@[a]@));
                assert(o@.len() == len && count_set(o@) == a);
                assert(count_set(g@[i as int]@) == k);
                lemma_bits_value_bound(o@);
                if bits_value(o@) == key {
                    lemma_bits_value_injective(o@, g@[i as int]@);
                }
            }
            assert forall|j: int| 0 <= j < i + 1 implies r@[bits_value((#[trigger] g@[j])@) as int] == j by {
                lemma_bits_value_bound(g@[j]@);
                if j < i {
                    assert(bits_value(g@[j]@) < bits_value(g@[i as int]@));
                }
            }
            i = i + 1;
        }
        k = k + 1;
    }
    assert forall|filled: Seq<bool>| #[trigger] count_set(filled) <= len && filled.len() == len implies {
        let i = r@[bits_value(filled) as int] as int;
        let g = levels@[count_set(filled) as int]@;
        0 <= i < g.len() && g[i]@ == filled
    } by {
        let c = count_set(filled) as int;
        lemma_bits_value_bound(filled);
        assert(lists_lower_level(len as int, c, levels@[c]@));
        let j = choose|j: int| 0 <= j < levels@[c]@.len() && levels@[c]@[j]@ == filled;
        assert(r@[bits_value(levels@[c]@[j]@) as int] == j);
    }
    r
}

/// The level tables of the game with `N` dice: the upper levels by number of
/// filled upper categories, the lower levels by number of filled lower
/// categories, and for each the map from a configuration to its position in
/// its group.
pub struct LevelTables<const N: usize> {
    pub above: Vec<Vec<(usize, [bool; 6])>>,
    pub above_map: Grid,
    pub below: Vec<Vec<Vec<bool>>>,
    pub below_map: Vec<usize>,
}

impl<const N: usize> LevelTables<N> {
    pub open spec fn wf(&self) -> bool {
        &&& N == 5 || N == 6
        &&& self.above@.len() == 7
        &&& forall|k: int| 0 <= k <= 6 ==> lists_upper_level(N as int, k, #[trigger] self.above@[k]@)
        &&& grid_shape(self.above_map) == ((bonus_threshold(N as int) + 1) as nat, 64nat)
        &&& grid_cells(self.above_map).len() == (bonus_threshold(N as int) + 1) * 64
        &&& forall|pc: int, filled: Seq<bool>| #[trigger]
            upper_reachable(N as int, filled, pc) && filled.len() == 6 ==> {
                let i = grid_cells(self.above_map)[upper_key(pc, filled)] as int;
                let g = self.above@[count_set(filled) as int]@;
                0 <= i < g.len() && g[i].0 == pc && g[i].1@ == filled
            }
        &&& self.below@.len() == n_lower(N as int) + 1
        &&& forall|k: int| 0 <= k <= n_lower(N as int) ==> lists_lower_level(n_lower(N as int), k, #[trigger] self.below@[k]@)
        &&& self.below_map@.len() == two_pow(n_lower(N as int) as nat)
        &&& forall|filled: Seq<bool>| #[trigger] count_set(filled) <= n_lower(N as int) && filled.len() == n_lower(N as int) ==> {
                let i = self.below_map@[bits_value(filled) as int] as int;
                let g = self.below@[count_set(filled) as int]@;
                0 <= i < g.len() && g[i]@ == filled
            }
    }

    /// The position of the upper configuration `(points, filled)` within
    /// its group, the points folded to the threshold; `None` when no game
    /// reaches that configuration.
    pub fn find_above(&self, points: usize, filled: &[bool; 6]) -> (r: Option<usize>)
        requires
            self.wf(),
        ensures
            r is None <==> !upper_reachable(
                N as int,
                filled@,
                crate::yatzy::clipped_points(N as int, points as int),
            ),
            r matches Some(i) ==> i == grid_cells(self.above_map)[upper_key(
                crate::yatzy::clipped_points(N as int, points as int),
                filled@,
            )],
            r matches Some(i) ==> i < self.above@[count_set(filled@) as int]@.len()
                && self.above@[count_set(filled@) as int]@[i as int].0 == crate::yatzy::clipped_points(
                N as int,
                points as int,
            ) && self.above@[count_set(filled@) as int]@[i as int].1@ == filled@,
    {
        let t = points_above::<N>();
        let pc = if points < t {
            points
        } else {
            t
        };
        proof {
            lemma_six_flags_bound(filled@);
            reveal_with_fuel(two_pow, 7);
            lemma_count_set_bound(filled@);
        }
        let m = parse_binary(filled);
        let k = count_true(*filled);
        let i = grid_get(&self.above_map, pc, m);
        let g = &self.above[k];
        assert(lists_upper_level(N as int, k as int, g@));
        if i < g.len() && g[i].0 == pc && parse_binary(&g[i].1) == m {
            proof {
                assert(is_upper_level(N as int, k as int, g@[i as int].0 as int, g@[i as int].1@));
                lemma_bits_value_injective(g@[i as int].1@, filled@);
            }
            Some(i)
        } else {
            proof {
                if upper_reachable(N as int, filled@, pc as int) {
                    lemma_six_flags_bound(g@[i as int].1@);
                }
            }
            None
        }
    }

    /// Builds the tables.
    pub fn new() -> (r: Self)
        requires
            N == 5 || N == 6,
        ensures
            r.wf(),
    {
        let above = a_levels::<N>();
        let above_map = upper_map::<N>(&above);
        let len: usize = if N == 5 {
            9
        } else {
            14
        };
        let below = b_levels(len);
        let below_map = lower_map(len, &below);
        LevelTables { above, above_map, below, below_map }
    }
}

} // verus!
