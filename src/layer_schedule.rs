use vstd::prelude::*;

verus! {

/// Where layer `(na, nb, nt)` stands in the solving order for `l` lower
/// categories: filled upper count from 6 down, then filled lower count from
/// `l` down, then rolls left from 0 up.
pub open spec fn layer_pos(l: int, na: int, nb: int, nt: int) -> int {
    ((6 - na) * (l + 1) + (l - nb)) * 3 + nt
}

/// Whether `(na, nb, nt)` is a layer of the game with `l` lower categories.
pub open spec fn is_layer(l: int, na: int, nb: int, nt: int) -> bool {
    0 <= na <= 6 && 0 <= nb <= l && 0 <= nt < 3
}

/// Two layers at one position are the same layer.
pub proof fn lemma_layer_pos_injective(l: int, a1: int, b1: int, t1: int, a2: int, b2: int, t2: int)
    requires
        0 <= l,
        is_layer(l, a1, b1, t1),
        is_layer(l, a2, b2, t2),
        layer_pos(l, a1, b1, t1) == layer_pos(l, a2, b2, t2),
    ensures
        a1 == a2 && b1 == b2 && t1 == t2,
{
    let x1 = (6 - a1) * (l + 1) + (l - b1);
    let x2 = (6 - a2) * (l + 1) + (l - b2);
    assert(x1 == x2 && t1 == t2);
    if a1 != a2 {
        if a1 < a2 {
            assert((6 - a1) * (l + 1) >= (6 - a2) * (l + 1) + (l + 1)) by (nonlinear_arith)
                requires
                    a1 < a2,
                    0 <= l,
            ;
        } else {
            assert((6 - a2) * (l + 1) >= (6 - a1) * (l + 1) + (l + 1)) by (nonlinear_arith)
                requires
                    a2 < a1,
                    0 <= l,
            ;
        }
    }
}

/// Every layer has a position in the solving order, below its length.
pub proof fn lemma_layer_pos_bound(l: int, na: int, nb: int, nt: int)
    requires
        0 <= l,
        is_layer(l, na, nb, nt),
    ensures
        0 <= layer_pos(l, na, nb, nt) < 21 * (l + 1),
{
    assert(0 <= (6 - na) * (l + 1) <= 6 * (l + 1)) by (nonlinear_arith)
        requires
            0 <= na <= 6,
            0 <= l,
    ;
}

/// The order in which the layers are solved, for `n_below` lower categories.
pub fn layer_order(n_below: usize) -> (r: Vec<(usize, usize, usize)>)
    requires
        n_below <= 14,
    ensures
        r@.len() == 21 * (n_below + 1),
        forall|q: int|
            0 <= q < r@.len() ==> is_layer(n_below as int, (#[trigger] r@[q]).0 as int, r@[q].1 as int, r@[q].2 as int)
                && layer_pos(n_below as int, r@[q].0 as int, r@[q].1 as int, r@[q].2 as int) == q,
        forall|na: int, nb: int, nt: int| #[trigger]
            is_layer(n_below as int, na, nb, nt) ==> r@[layer_pos(n_below as int, na, nb, nt)] == (
                na as usize,
                nb as usize,
                nt as usize,
            ),
{
    let l = n_below;
    let ghost lc = (l + 1) as int;
    let mut r: Vec<(usize, usize, usize)> = Vec::new();
    let mut na: usize = 7;
    while na > 0
        invariant
            l <= 14,
            lc == l + 1,
            na <= 7,
            r@.len() == (7 - na) * lc * 3,
            forall|q: int|
                0 <= q < r@.len() ==> is_layer(l as int, (#[trigger] r@[q]).0 as int, r@[q].1 as int, r@[q].2 as int)
                    && layer_pos(l as int, r@[q].0 as int, r@[q].1 as int, r@[q].2 as int) == q,
        decreases na,
    {
        na = na - 1;
        assert((7 - (na + 1)) * lc * 3 == (6 - na) * lc * 3) by (nonlinear_arith)
            requires
                na <= 6,
        ;
        let mut nb: usize = l + 1;
        while nb > 0
            invariant
                l <= 14,
                lc == l + 1,
                na <= 6,
                nb <= l + 1,
                r@.len() == ((6 - na) * lc + (l + 1 - nb)) * 3,
                forall|q: int|
                    0 <= q < r@.len() ==> is_layer(l as int, (#[trigger] r@[q]).0 as int, r@[q].1 as int, r@[q].2 as int)
                        && layer_pos(l as int, r@[q].0 as int, r@[q].1 as int, r@[q].2 as int) == q,
            decreases nb,
        {
            nb = nb - 1;
            let mut nt: usize = 0;
            while nt < 3
                invariant
                    l <= 14,
                    lc == l + 1,
                    na <= 6,
                    nb <= l,
                    nt <= 3,
                    r@.len() == layer_pos(l as int, na as int, nb as int, nt as int),
                    forall|q: int|
                        0 <= q < r@.len() ==> is_layer(l as int, (#[trigger] r@[q]).0 as int, r@[q].1 as int, r@[q].2 as int)
                            && layer_pos(l as int, r@[q].0 as int, r@[q].1 as int, r@[q].2 as int) == q,
                decreases 3 - nt,
            {
                r.push((na, nb, nt));
                nt = nt + 1;
            }
        }
        assert(((6 - na) * lc + lc) * 3 == (7 - na) * lc * 3) by (nonlinear_arith);
    }
    assert(7 * lc * 3 == 21 * lc) by (nonlinear_arith);
    assert forall|na: int, nb: int, nt: int| #[trigger] is_layer(l as int, na, nb, nt) implies r@[layer_pos(
        l as int,
        na,
        nb,
        nt,
    )] == (na as usize, nb as usize, nt as usize) by {
        let p = layer_pos(l as int, na, nb, nt);
        lemma_layer_pos_bound(l as int, na, nb, nt);
        let e = r@[p];
        lemma_layer_pos_injective(l as int, e.0 as int, e.1 as int, e.2 as int, na, nb, nt);
    }
    r
}

/// Every layer is solved after the layers it reads: the two layers at the
/// start of the next turn (one more upper or one more lower category filled,
/// two rolls left) and the same layer with one roll fewer.
pub proof fn lemma_dependencies_first(l: int, na: int, nb: int, nt: int)
    requires
        0 <= l,
        is_layer(l, na, nb, nt),
    ensures
        na < 6 ==> layer_pos(l, na + 1, nb, 2) < layer_pos(l, na, nb, nt),
        nb < l ==> layer_pos(l, na, nb + 1, 2) < layer_pos(l, na, nb, nt),
        nt > 0 ==> layer_pos(l, na, nb, nt - 1) < layer_pos(l, na, nb, nt),
{
    assert((6 - na) * (l + 1) == (6 - (na + 1)) * (l + 1) + (l + 1)) by (nonlinear_arith);
}

/// How many positions a layer holds: upper group size times lower group
/// size times the number of hands; `None` when that does not fit.
pub fn layer_len(n_upper: usize, n_lower: usize, n_hands: usize) -> (r: Option<usize>)
    ensures
        n_upper * n_lower * n_hands <= usize::MAX ==> r == Some((n_upper * n_lower * n_hands) as usize),
        n_upper * n_lower * n_hands > usize::MAX ==> r is None,
{
    if n_hands == 0 {
        assert(n_upper * n_lower * n_hands == 0) by (nonlinear_arith)
            requires
                n_hands == 0,
        ;
        return Some(0);
    }
    match n_upper.checked_mul(n_lower) {
        Some(a) => {
            let r = a.checked_mul(n_hands);
            proof {
                if n_upper * n_lower * n_hands <= usize::MAX {
                }
            }
            r
        },
        None => {
            assert(n_upper * n_lower * n_hands > usize::MAX) by (nonlinear_arith)
                requires
                    n_upper * n_lower > usize::MAX,
                    n_hands >= 1,
            ;
            None
        },
    }
}

/// Whether a layer of `positions` positions is on disk in full: the score
/// file holds four bytes per position and the strategy file one, where
/// `scores_bytes` and `strats_bytes` are the file sizes found (`None`: no
/// file).
pub fn is_layer_complete(positions: u64, scores_bytes: Option<u64>, strats_bytes: Option<u64>) -> (r: bool)
    ensures
        r == match (scores_bytes, strats_bytes) {
            (Some(s), Some(t)) => s == 4 * positions && t == positions,
            _ => false,
        },
{
    match (scores_bytes, strats_bytes) {
        (Some(s), Some(t)) => {
            if positions > u64::MAX / 4 {
                false
            } else {
                s == 4 * positions && t == positions
            }
        },
        _ => false,
    }
}

/// In the variant where unused rolls carry over to the next turn, how many
/// rolls can be left in a layer: two for each filled category, plus two.
pub open spec fn max_rolls_x(na: int, nb: int) -> int {
    2 * (na + nb) + 2
}

/// Whether `(na, nb, nt)` is a layer of the carry-over variant with `l`
/// lower categories.
pub open spec fn is_layer_x(l: int, na: int, nb: int, nt: int) -> bool {
    0 <= na <= 6 && 0 <= nb <= l && 0 <= nt <= max_rolls_x(na, nb)
}

/// Whether layer `(a, b, t)` is solved before layer `(na, nb, nt)`: filled
/// upper count from 6 down, then filled lower count from `l` down, then rolls
/// left from 0 up.
pub open spec fn solved_before(a: int, b: int, t: int, na: int, nb: int, nt: int) -> bool {
    a > na || (a == na && b > nb) || (a == na && b == nb && t < nt)
}

/// The order in which the layers of the carry-over variant are solved, for
/// `n_below` lower categories: every layer once, in `solved_before` order.
pub fn layer_order_x(n_below: usize) -> (r: Vec<(usize, usize, usize)>)
    requires
        n_below <= 14,
    ensures
        forall|q: int|
            0 <= q < r@.len() ==> is_layer_x(n_below as int, (#[trigger] r@[q]).0 as int, r@[q].1 as int, r@[q].2 as int),
        forall|q1: int, q2: int|
            0 <= q1 < q2 < r@.len() ==> solved_before(
                (#[trigger] r@[q1]).0 as int,
                r@[q1].1 as int,
                r@[q1].2 as int,
                (#[trigger] r@[q2]).0 as int,
                r@[q2].1 as int,
                r@[q2].2 as int,
            ),
        forall|na: int, nb: int, nt: int| #[trigger]
            is_layer_x(n_below as int, na, nb, nt) ==> exists|q: int|
                0 <= q < r@.len() && r@[q] == (na as usize, nb as usize, nt as usize),
{
    let l = n_below;
    let mut r: Vec<(usize, usize, usize)> = Vec::new();
    let mut na: usize = 7;
    while na > 0
        invariant
            l <= 14,
            na <= 7,
            forall|q: int|
                0 <= q < r@.len() ==> is_layer_x(l as int, (#[trigger] r@[q]).0 as int, r@[q].1 as int, r@[q].2 as int)
                    && r@[q].0 >= na,
            forall|q1: int, q2: int|
                0 <= q1 < q2 < r@.len() ==> solved_before(
                    (#[trigger] r@[q1]).0 as int,
                    r@[q1].1 as int,
                    r@[q1].2 as int,
                    (#[trigger] r@[q2]).0 as int,
                    r@[q2].1 as int,
                    r@[q2].2 as int,
                ),
            forall|a: int, b: int, t: int| #[trigger]
                is_layer_x(l as int, a, b, t) && a >= na ==> exists|q: int|
                    0 <= q < r@.len() && r@[q] == (a as usize, b as usize, t as usize),
        decreases na,
    {
        na = na - 1;
        let mut nb: usize = l + 1;
        while nb > 0
            invariant
                l <= 14,
                na <= 6,
                nb <= l + 1,
                forall|q: int|
                    0 <= q < r@.len() ==> is_layer_x(l as int, (#[trigger] r@[q]).0 as int, r@[q].1 as int, r@[q].2 as int)
                        && (r@[q].0 > na || (r@[q].0 == na && r@[q].1 >= nb)),
                forall|q1: int, q2: int|
                    0 <= q1 < q2 < r@.len() ==> solved_before(
                        (#[trigger] r@[q1]).0 as int,
                        r@[q1].1 as int,
                        r@[q1].2 as int,
                        (#[trigger] r@[q2]).0 as int,
                        r@[q2].1 as int,
                        r@[q2].2 as int,
                    ),
                forall|a: int, b: int, t: int| #[trigger]
                    is_layer_x(l as int, a, b, t) && (a > na || (a == na && b >= nb)) ==> exists|q: int|
                        0 <= q < r@.len() && r@[q] == (a as usize, b as usize, t as usize),
            decreases nb,
        {
            nb = nb - 1;
            let top = 2 * (na + nb) + 2;
            let mut nt: usize = 0;
            while nt <= top
                invariant
                    l <= 14,
                    na <= 6,
                    nb <= l,
                    top == max_rolls_x(na as int, nb as int),
                    nt <= top + 1,
                    forall|q: int|
                        0 <= q < r@.len() ==> is_layer_x(l as int, (#[trigger] r@[q]).0 as int, r@[q].1 as int, r@[q].2 as int)
                            && solved_before(r@[q].0 as int, r@[q].1 as int, r@[q].2 as int, na as int, nb as int, nt as int),
                    forall|q1: int, q2: int|
                        0 <= q1 < q2 < r@.len() ==> solved_before(
                            (#[trigger] r@[q1]).0 as int,
                            r@[q1].1 as int,
                            r@[q1].2 as int,
                            (#[trigger] r@[q2]).0 as int,
                            r@[q2].1 as int,
                            r@[q2].2 as int,
                        ),
                    forall|a: int, b: int, t: int| #[trigger]
                        is_layer_x(l as int, a, b, t) && (a > na || (a == na && b > nb) || (a == na && b == nb && t < nt))
                            ==> exists|q: int| 0 <= q < r@.len() && r@[q] == (a as usize, b as usize, t as usize),
                decreases top + 1 - nt,
            {
                let ghost old_r = r@;
                r.push((na, nb, nt));
                assert forall|a: int, b: int, t: int| #[trigger]
                    is_layer_x(l as int, a, b, t) && (a > na || (a == na && b > nb) || (a == na && b == nb && t < nt + 1))
                        implies exists|q: int| 0 <= q < r@.len() && r@[q] == (a as usize, b as usize, t as usize) by {
                    if a == na && b == nb && t == nt {
                        assert(r@[r@.len() - 1] == (a as usize, b as usize, t as usize));
                    } else {
                        let q = choose|q: int| 0 <= q < old_r.len() && old_r[q] == (a as usize, b as usize, t as usize);
                        assert(r@[q] == old_r[q]);
                    }
                }
                nt = nt + 1;
            }
        }
    }
    r
}

/// In the carry-over variant every layer is solved after the layers it
/// reads: the two layers of the next turn (one more category filled, two
/// more rolls left) and the same layer with one roll fewer.
pub proof fn lemma_dependencies_first_x(l: int, r: Seq<(usize, usize, usize)>, q: int)
    requires
        forall|q1: int, q2: int|
            0 <= q1 < q2 < r.len() ==> solved_before(
                (#[trigger] r[q1]).0 as int,
                r[q1].1 as int,
                r[q1].2 as int,
                (#[trigger] r[q2]).0 as int,
                r[q2].1 as int,
                r[q2].2 as int,
            ),
        forall|na: int, nb: int, nt: int| #[trigger]
            is_layer_x(l, na, nb, nt) ==> exists|p: int| 0 <= p < r.len() && r[p] == (na as usize, nb as usize, nt as usize),
        0 <= l <= 14,
        0 <= q < r.len(),
        is_layer_x(l, r[q].0 as int, r[q].1 as int, r[q].2 as int),
    ensures
        ({
            let (na, nb, nt) = r[q];
            &&& na < 6 ==> exists|p: int| 0 <= p < q && r[p] == ((na + 1) as usize, nb, (nt + 2) as usize)
            &&& nb < l ==> exists|p: int| 0 <= p < q && r[p] == (na, (nb + 1) as usize, (nt + 2) as usize)
            &&& nt > 0 ==> exists|p: int| 0 <= p < q && r[p] == (na, nb, (nt - 1) as usize)
        }),
{
    let (na, nb, nt) = r[q];
    if na < 6 {
        assert(is_layer_x(l, na + 1, nb as int, nt + 2));
        let p = choose|p: int| 0 <= p < r.len() && r[p] == ((na + 1) as usize, nb, (nt + 2) as usize);
        if p > q {
            assert(solved_before(r[q].0 as int, r[q].1 as int, r[q].2 as int, r[p].0 as int, r[p].1 as int, r[p].2 as int));
        }
        assert(0 <= p < q && r[p] == ((na + 1) as usize, nb, (nt + 2) as usize));
    }
    if nb < l {
        assert(is_layer_x(l, na as int, nb + 1, nt + 2));
        let p = choose|p: int| 0 <= p < r.len() && r[p] == (na, (nb + 1) as usize, (nt + 2) as usize);
        if p > q {
            assert(solved_before(r[q].0 as int, r[q].1 as int, r[q].2 as int, r[p].0 as int, r[p].1 as int, r[p].2 as int));
        }
        assert(0 <= p < q && r[p] == (na, (nb + 1) as usize, (nt + 2) as usize));
    }
    if nt > 0 {
        assert(is_layer_x(l, na as int, nb as int, nt - 1));
        let p = choose|p: int| 0 <= p < r.len() && r[p] == (na, nb, (nt - 1) as usize);
        if p > q {
            assert(solved_before(r[q].0 as int, r[q].1 as int, r[q].2 as int, r[p].0 as int, r[p].1 as int, r[p].2 as int));
        }
        assert(0 <= p < q && r[p] == (na, nb, (nt - 1) as usize));
    }
}

} // verus!
