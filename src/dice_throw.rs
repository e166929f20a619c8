use rand::Rng;
use vstd::prelude::*;

verus! {

/// A hand: how many dice show each face, `dice[f - 1]` being the count of
/// face `f`.
#[derive(Clone, Copy, Debug, PartialEq, Eq, Hash)]
pub struct DiceThrow {
    pub dice: [usize; 6],
}

/// How many dice a hand holds.
pub open spec fn dice_total(s: Seq<usize>) -> int {
    s[0] + s[1] + s[2] + s[3] + s[4] + s[5]
}

/// Points for an upper category: the face times its count.
pub open spec fn amount_of_spec(s: Seq<usize>, face: int) -> int {
    face * s[face - 1]
}

/// The highest face among `1..=f`, other than `excl`, shown by at least `k`
/// dice; 0 when there is none.
pub open spec fn top_face(s: Seq<usize>, f: int, k: int, excl: int) -> int
    decreases f,
{
    if f <= 0 {
        0
    } else if f != excl && s[f - 1] >= k {
        f
    } else {
        top_face(s, f - 1, k, excl)
    }
}

/// How many faces among `1..=f` show at least two dice.
pub open spec fn pair_faces(s: Seq<usize>, f: int) -> int
    decreases f,
{
    if f <= 0 {
        0
    } else {
        pair_faces(s, f - 1) + if s[f - 1] >= 2 {
            1int
        } else {
            0
        }
    }
}

/// Twice the sum of the `k` highest faces among `1..=f` that show at least
/// two dice (fewer if there are fewer).
pub open spec fn top_pairs_sum(s: Seq<usize>, f: int, k: int) -> int
    decreases f,
{
    if f <= 0 || k <= 0 {
        0
    } else if s[f - 1] >= 2 {
        2 * f + top_pairs_sum(s, f - 1, k - 1)
    } else {
        top_pairs_sum(s, f - 1, k)
    }
}

/// `k` pairs: the `k` highest faces that show two dice each count twice; 0
/// when fewer than `k` faces do.
pub open spec fn pairs_spec(s: Seq<usize>, k: int) -> int {
    if pair_faces(s, 6) >= k {
        top_pairs_sum(s, 6, k)
    } else {
        0
    }
}

/// `k` of a kind: `k` times the highest face shown by `k` dice, else 0.
pub open spec fn n_of_a_kind_spec(s: Seq<usize>, k: int) -> int {
    k * top_face(s, 6, k, 0)
}

/// `a + (a + 1) + ... + b`.
pub open spec fn range_sum(a: int, b: int) -> int
    decreases b - a + 1,
{
    if b < a {
        0
    } else {
        range_sum(a, b - 1) + b
    }
}

/// Whether every face of `a..=b` is shown.
pub open spec fn covers(s: Seq<usize>, a: int, b: int) -> bool {
    forall|i: int| a - 1 <= i < b ==> #[trigger] s[i] >= 1
}

/// A straight from `a` to `b`: the sum of its faces when all are shown.
pub open spec fn straight_spec(s: Seq<usize>, a: int, b: int) -> int {
    if covers(s, a, b) {
        range_sum(a, b)
    } else {
        0
    }
}

/// A building of `a` and `b` dice: `a` times the highest face shown `a` times
/// plus `b` times the highest other face shown `b` times, 0 when either is
/// missing.
pub open spec fn building_spec(s: Seq<usize>, a: int, b: int) -> int {
    let x = top_face(s, 6, a, 0);
    let y = top_face(s, 6, b, x);
    if x > 0 && y > 0 {
        a * x + b * y
    } else {
        0
    }
}

/// The sum of all dice.
pub open spec fn chance_spec(s: Seq<usize>) -> int {
    s[0] + 2 * s[1] + 3 * s[2] + 4 * s[3] + 5 * s[4] + 6 * s[5]
}

/// Whether all dice show one face.
pub open spec fn all_same(s: Seq<usize>) -> bool {
    exists|i: int| 0 <= i < 6 && #[trigger] s[i] == dice_total(s)
}

/// Yatzy: 50 with five dice, 100 with six, when all show one face.
pub open spec fn yatzy_spec(s: Seq<usize>) -> int {
    if all_same(s) {
        if dice_total(s) == 5 {
            50
        } else {
            100
        }
    } else {
        0
    }
}

/// How many categories a game with `n` dice has.
pub open spec fn n_categories(n: int) -> int {
    if n == 5 {
        15
    } else {
        20
    }
}

/// The points that hand `s` scores in category `c` of the game with `n` dice.
pub open spec fn category_score(n: int, s: Seq<usize>, c: int) -> int {
    if c < 6 {
        amount_of_spec(s, c + 1)
    } else if c == 6 {
        pairs_spec(s, 1)
    } else if c == 7 {
        pairs_spec(s, 2)
    } else if n == 5 {
        if c == 8 {
            n_of_a_kind_spec(s, 3)
        } else if c == 9 {
            n_of_a_kind_spec(s, 4)
        } else if c == 10 {
            straight_spec(s, 1, 5)
        } else if c == 11 {
            straight_spec(s, 2, 6)
        } else if c == 12 {
            building_spec(s, 3, 2)
        } else if c == 13 {
            chance_spec(s)
        } else {
            yatzy_spec(s)
        }
    } else {
        if c == 8 {
            pairs_spec(s, 3)
        } else if c == 9 {
            n_of_a_kind_spec(s, 3)
        } else if c == 10 {
            n_of_a_kind_spec(s, 4)
        } else if c == 11 {
            n_of_a_kind_spec(s, 5)
        } else if c == 12 {
            straight_spec(s, 1, 5)
        } else if c == 13 {
            straight_spec(s, 2, 6)
        } else if c == 14 {
            straight_spec(s, 1, 6)
        } else if c == 15 {
            building_spec(s, 3, 2)
        } else if c == 16 {
            building_spec(s, 3, 3)
        } else if c == 17 {
            building_spec(s, 4, 2)
        } else if c == 18 {
            chance_spec(s)
        } else {
            yatzy_spec(s)
        }
    }
}


/// The dice of a hand one by one, faces ascending: face `f` repeated as often
/// as it shows, for the faces `1..=f`.
pub open spec fn ordered_upto(s: Seq<usize>, f: int) -> Seq<u8>
    decreases f,
{
    if f <= 0 {
        Seq::empty()
    } else {
        ordered_upto(s, f - 1) + Seq::new(s[f - 1] as nat, |_i: int| f as u8)
    }
}

/// The ordered expansion of a hand: its dice one by one, faces ascending.
pub open spec fn ordered_dice(s: Seq<usize>) -> Seq<u8> {
    ordered_upto(s, 6)
}

/// How many of the dice show face `f`.
pub open spec fn face_count(d: Seq<u8>, f: int) -> nat
    decreases d.len(),
{
    if d.len() == 0 {
        0
    } else {
        face_count(d.drop_last(), f) + if d.last() == f {
            1nat
        } else {
            0
        }
    }
}

/// Whether every die shows a face of `1..=6`.
pub open spec fn proper_faces(d: Seq<u8>) -> bool {
    forall|i: int| 0 <= i < d.len() ==> 1 <= #[trigger] d[i] <= 6
}

/// How many of the lowest `k` bits of `m` are set.
pub open spec fn low_bits_set(m: nat, k: nat) -> nat
    decreases k,
{
    if k == 0 {
        0
    } else {
        (m % 2) + low_bits_set(m / 2, (k - 1) as nat)
    }
}

/// The dice `d` after a reroll: die `i` is replaced when bit `i` of `m` is
/// set, by the next unused die of `fresh`.
pub open spec fn reroll_seq(d: Seq<u8>, m: nat, fresh: Seq<u8>) -> Seq<u8>
    decreases d.len(),
{
    if d.len() == 0 {
        Seq::empty()
    } else if m % 2 == 1 {
        seq![fresh[0]] + reroll_seq(d.drop_first(), m / 2, fresh.drop_first())
    } else {
        seq![d[0]] + reroll_seq(d.drop_first(), m / 2, fresh)
    }
}

/// The dice of `d` whose bit in `m` is set, in order.
pub open spec fn select(d: Seq<u8>, m: nat) -> Seq<u8>
    decreases d.len(),
{
    if d.len() == 0 {
        Seq::empty()
    } else if m % 2 == 1 {
        seq![d[0]] + select(d.drop_first(), m / 2)
    } else {
        select(d.drop_first(), m / 2)
    }
}

/// Whether `h` holds exactly the dice `d`.
pub open spec fn counts_match(h: Seq<usize>, d: Seq<u8>) -> bool {
    h.len() == 6 && forall|i: int| 0 <= i < 6 ==> #[trigger] h[i] == face_count(d, i + 1)
}

pub proof fn lemma_face_count_append(a: Seq<u8>, b: Seq<u8>, f: int)
    ensures
        face_count(a + b, f) == face_count(a, f) + face_count(b, f),
    decreases b.len(),
{
    if b.len() > 0 {
        lemma_face_count_append(a, b.drop_last(), f);
        assert((a + b).drop_last() == a + b.drop_last());
    }
}

pub proof fn lemma_face_count_len(d: Seq<u8>, f: int)
    ensures
        face_count(d, f) <= d.len(),
    decreases d.len(),
{
    if d.len() > 0 {
        lemma_face_count_len(d.drop_last(), f);
    }
}

pub proof fn lemma_face_count_repeat(n: nat, g: int, f: int)
    requires
        1 <= g <= 6,
    ensures
        face_count(Seq::new(n, |_i: int| g as u8), f) == if f == g {
            n
        } else {
            0
        },
    decreases n,
{
    if n > 0 {
        lemma_face_count_repeat((n - 1) as nat, g, f);
        assert(Seq::new(n, |_i: int| g as u8).drop_last() == Seq::new(
            (n - 1) as nat,
            |_i: int| g as u8,
        ));
    }
}

/// Face `f` shows in the expansion of the faces up to `k` as often as the hand
/// says, if `f <= k`.
pub proof fn lemma_ordered_upto_counts(s: Seq<usize>, k: int, f: int)
    requires
        s.len() == 6,
        0 <= k <= 6,
        1 <= f <= 6,
    ensures
        face_count(ordered_upto(s, k), f) == if f <= k {
            s[f - 1] as nat
        } else {
            0
        },
        ordered_upto(s, k).len() == if k >= 1 { s[0] as int } else { 0 } + if k >= 2 { s[1] as int } else { 0 }
            + if k >= 3 { s[2] as int } else { 0 } + if k >= 4 { s[3] as int } else { 0 }
            + if k >= 5 { s[4] as int } else { 0 } + if k >= 6 { s[5] as int } else { 0 },
        proper_faces(ordered_upto(s, k)),
    decreases k,
{
    if k > 0 {
        lemma_ordered_upto_counts(s, k - 1, f);
        lemma_face_count_append(
            ordered_upto(s, k - 1),
            Seq::new(s[k - 1] as nat, |_i: int| k as u8),
            f,
        );
        lemma_face_count_repeat(s[k - 1] as nat, k, f);
        let a = ordered_upto(s, k - 1);
        let b = Seq::new(s[k - 1] as nat, |_i: int| k as u8);
        assert forall|i: int| 0 <= i < (a + b).len() implies 1 <= #[trigger] (a + b)[i] <= 6 by {
            if i < a.len() {
                assert((a + b)[i] == a[i]);
            }
        }
    }
}

/// The ordered expansion holds exactly the hand's dice.
pub proof fn lemma_ordered_dice_counts(s: Seq<usize>)
    requires
        s.len() == 6,
    ensures
        counts_match(s, ordered_dice(s)),
        ordered_dice(s).len() == dice_total(s),
        proper_faces(ordered_dice(s)),
{
    assert forall|i: int| 0 <= i < 6 implies #[trigger] s[i] == face_count(ordered_dice(s), i + 1) by {
        lemma_ordered_upto_counts(s, 6, i + 1);
    }
    lemma_ordered_upto_counts(s, 6, 1);
}

/// The mask that selects sub-hand `sub` of the dice `d` (as a reroll mask:
/// the dice rolled again): each die is selected (its bit set) when `sub`
/// still asks for its face, first dice first.
pub open spec fn mask_of(d: Seq<u8>, sub: Seq<usize>) -> nat
    decreases d.len(),
{
    if d.len() == 0 {
        0
    } else if 1 <= d[0] <= 6 && sub[d[0] - 1] > 0 {
        1 + 2 * mask_of(d.drop_first(), sub.update(d[0] - 1, (sub[d[0] - 1] - 1) as usize))
    } else {
        2 * mask_of(d.drop_first(), sub)
    }
}

/// Whether `c` is a sub-hand of `s`: no face more often.
pub open spec fn is_sub_hand(s: Seq<usize>, c: Seq<usize>) -> bool {
    c.len() == 6 && forall|i: int| 0 <= i < 6 ==> #[trigger] c[i] <= s[i]
}

/// Whether mask `m` selects some sub-hand of `s`, as `mask_of` builds it.
pub open spec fn selects_a_sub_hand(s: Seq<usize>, m: u8) -> bool {
    exists|c: Seq<usize>| #[trigger] is_sub_hand(s, c) && m == mask_of(ordered_dice(s), c)
}

/// `subs` lists every sub-hand of `s` once, in lexicographic order of the
/// count vector.
pub open spec fn lists_sub_hands(s: Seq<usize>, subs: Seq<Seq<usize>>) -> bool {
    &&& forall|i: int| 0 <= i < subs.len() ==> is_sub_hand(s, #[trigger] subs[i])
    &&& forall|i: int, j: int|
        0 <= i < j < subs.len() ==> crate::dice_distributions::hand_key(#[trigger] subs[i])
            < crate::dice_distributions::hand_key(#[trigger] subs[j])
    &&& forall|c: Seq<usize>| #[trigger] is_sub_hand(s, c) ==> exists|i: int| 0 <= i < subs.len() && subs[i] == c
}

/// `masks` holds, for each sub-hand of `s` in the order of `lists_sub_hands`,
/// the mask that selects it.
pub open spec fn masks_of_sub_hands(s: Seq<usize>, masks: Seq<u8>) -> bool {
    exists|subs: Seq<Seq<usize>>| #[trigger]
        lists_sub_hands(s, subs) && masks.len() == subs.len() && forall|i: int|
            0 <= i < masks.len() ==> masks[i] == mask_of(ordered_dice(s), #[trigger] subs[i])
}

proof fn lemma_face_count_cons(x: u8, rest: Seq<u8>, f: int)
    ensures
        face_count(seq![x] + rest, f) == face_count(rest, f) + if x == f {
            1nat
        } else {
            0
        },
{
    lemma_face_count_append(seq![x], rest, f);
    assert(seq![x].drop_last() == Seq::<u8>::empty());
    assert(face_count(seq![x], f) == face_count(Seq::<u8>::empty(), f) + if x == f {
        1nat
    } else {
        0
    });
}

/// The mask of a sub-hand selects exactly that sub-hand: selecting the dice
/// whose bits are set in `mask_of(d, sub)` gives the counts `sub`.
pub proof fn lemma_mask_selects_sub_hand(d: Seq<u8>, sub: Seq<usize>)
    requires
        proper_faces(d),
        sub.len() == 6,
        forall|i: int| 0 <= i < 6 ==> #[trigger] sub[i] <= face_count(d, i + 1),
    ensures
        counts_match(sub, select(d, mask_of(d, sub))),
    decreases d.len(),
{
    if d.len() == 0 {
        assert forall|i: int| 0 <= i < 6 implies #[trigger] sub[i] == face_count(select(d, mask_of(d, sub)), i + 1) by {
            assert(sub[i] <= face_count(d, i + 1));
        }
    } else {
        let x = d[0];
        let rest = d.drop_first();
        assert(d == seq![x] + rest);
        assert(proper_faces(rest)) by {
            assert forall|i: int| 0 <= i < rest.len() implies 1 <= #[trigger] rest[i] <= 6 by {
                assert(rest[i] == d[i + 1]);
            }
        }
        assert(1 <= x <= 6);
        assert forall|f: int| 1 <= f <= 6 implies face_count(d, f) == face_count(rest, f) + if x == f {
            1nat
        } else {
            0
        } by {
            lemma_face_count_cons(x, rest, f);
        }
        let m = mask_of(d, sub);
        if sub[x - 1] > 0 {
            let sub2 = sub.update(x - 1, (sub[x - 1] - 1) as usize);
            assert forall|i: int| 0 <= i < 6 implies #[trigger] sub2[i] <= face_count(rest, i + 1) by {
                assert(sub[i] <= face_count(d, i + 1));
            }
            lemma_mask_selects_sub_hand(rest, sub2);
            let m2 = mask_of(rest, sub2);
            assert(m == 1 + 2 * m2);
            assert(m % 2 == 1 && m / 2 == m2);
            let sel = select(rest, m2);
            assert(select(d, m) == seq![x] + sel);
            assert forall|i: int| 0 <= i < 6 implies #[trigger] sub[i] == face_count(select(d, m), i + 1) by {
                lemma_face_count_cons(x, sel, i + 1);
                assert(sub2[i] == face_count(sel, i + 1));
            }
        } else {
            assert forall|i: int| 0 <= i < 6 implies #[trigger] sub[i] <= face_count(rest, i + 1) by {
                assert(sub[i] <= face_count(d, i + 1));
            }
            lemma_mask_selects_sub_hand(rest, sub);
            let m2 = mask_of(rest, sub);
            assert(m == 2 * m2);
            assert(m % 2 == 0 && m / 2 == m2);
            assert(select(d, m) == select(rest, m2));
        }
    }
}

/// Selecting the dice of a sub-hand of `h` by its mask gives back that
/// sub-hand.
pub proof fn lemma_mask_round_trip(h: Seq<usize>, sub: Seq<usize>)
    requires
        h.len() == 6,
        is_sub_hand(h, sub),
    ensures
        counts_match(sub, select(ordered_dice(h), mask_of(ordered_dice(h), sub))),
{
    lemma_ordered_dice_counts(h);
    let o = ordered_dice(h);
    assert forall|i: int| 0 <= i < 6 implies #[trigger] sub[i] <= face_count(o, i + 1) by {
        assert(h[i] == face_count(o, i + 1));
    }
    lemma_mask_selects_sub_hand(o, sub);
}

/// How many of the lowest `n` bits of `mask` are set: the number of dice a
/// reroll mask rolls again in a hand of `n` dice.
pub fn count_low_bits(mask: u8, n: usize) -> (r: usize)
    ensures
        r == low_bits_set(mask as nat, n as nat),
        r <= n,
{
    let mut k: usize = 0;
    let mut m: u8 = mask;
    let mut b: usize = 0;
    while b < n
        invariant
            b <= n,
            k <= b,
            low_bits_set(mask as nat, n as nat) == k + low_bits_set(m as nat, (n - b) as nat),
        decreases n - b,
    {
        k = k + (m % 2) as usize;
        m = m / 2;
        b = b + 1;
    }
    k
}

impl From<[usize; 6]> for DiceThrow {
    /// The hand with the given counts.
    fn from(dice: [usize; 6]) -> (r: Self) {
        DiceThrow { dice }
    }
}

impl vstd::std_specs::convert::FromSpecImpl<[usize; 6]> for DiceThrow {
    open spec fn obeys_from_spec() -> bool {
        true
    }

    open spec fn from_spec(dice: [usize; 6]) -> DiceThrow {
        DiceThrow { dice }
    }
}

/// At most `k` of the lowest `k` bits are set.
pub proof fn lemma_low_bits_set_bound(m: nat, k: nat)
    ensures
        low_bits_set(m, k) <= k,
    decreases k,
{
    if k > 0 {
        lemma_low_bits_set_bound(m / 2, (k - 1) as nat);
    }
}

/// The counts of the dice `d`.
pub open spec fn counts_of(d: Seq<u8>) -> Seq<usize> {
    Seq::new(6, |i: int| face_count(d, i + 1) as usize)
}

/// Relies on rand's `Rng::gen_range` over `1..=6` with the thread-local
/// generator: the value lies in the inclusive range.
#[verifier::external_body]
fn roll_die() -> (r: u8)
    ensures
        1 <= r <= 6,
{
    rand::thread_rng().gen_range(1..=6u8)
}

impl DiceThrow {
    /// At most six dice: the largest hand of either game.
    pub open spec fn valid(&self) -> bool {
        dice_total(self.dice@) <= 6
    }

    pub fn new() -> (r: Self)
        ensures
            forall|f: int| 0 <= f < 6 ==> r.dice@[f] == 0,
            dice_total(r.dice@) == 0,
    {
        DiceThrow { dice: [0usize; 6] }
    }

    /// Rolls `n` fair dice.
    pub fn throw(n: usize) -> (r: Self)
        requires
            n <= 6,
        ensures
            dice_total(r.dice@) == n,
            r.valid(),
    {
        let mut dice_throw = Self::new();
        let mut i: usize = 0;
        while i < n
            invariant
                i <= n <= 6,
                dice_total(dice_throw.dice@) == i,
            decreases n - i,
        {
            let eyes = roll_die();
            let f = (eyes - 1) as usize;
            let ghost before = dice_throw.dice@;
            let c = dice_throw.dice[f];
            assert(c <= dice_total(before));
            dice_throw.dice[f] = c + 1;
            assert(dice_throw.dice@ == before.update(f as int, (c + 1) as usize));
            assert(dice_total(dice_throw.dice@) == dice_total(before) + 1);
            i = i + 1;
        }
        dice_throw
    }

    /// The hand that holds exactly the dice `d`.
    pub fn from_dice(d: &[u8]) -> (r: Self)
        requires
            d@.len() <= 6,
            proper_faces(d@),
        ensures
            counts_match(r.dice@, d@),
            dice_total(r.dice@) == d@.len(),
            r.valid(),
    {
        let mut r = DiceThrow::new();
        let mut i: usize = 0;
        while i < d.len()
            invariant
                i <= d@.len() <= 6,
                proper_faces(d@),
                counts_match(r.dice@, d@.subrange(0, i as int)),
                dice_total(r.dice@) == i,
            decreases d@.len() - i,
        {
            let x = d[i];
            let ghost pre = d@.subrange(0, i as int);
            let ghost next = d@.subrange(0, i + 1);
            assert(next.drop_last() == pre);
            assert(next.last() == x);
            proof {
                lemma_face_count_len(pre, x as int);
            }
            let ghost before = r.dice@;
            let c = r.dice[(x - 1) as usize];
            r.dice[(x - 1) as usize] = c + 1;
            assert forall|f: int| 0 <= f < 6 implies #[trigger] r.dice@[f] == face_count(next, f + 1) by {
                assert(face_count(next, f + 1) == face_count(pre, f + 1) + if x == f + 1 {
                    1nat
                } else {
                    0
                });
                assert(before[f] == face_count(pre, f + 1));
            }
            i = i + 1;
        }
        assert(d@.subrange(0, d@.len() as int) == d@);
        r
    }

    /// The dice one by one, faces ascending.
    pub fn into_ordered_dice(&self) -> (r: Vec<u8>)
        requires
            self.valid(),
        ensures
            r@ == ordered_dice(self.dice@),
    {
        let mut r: Vec<u8> = Vec::new();
        let mut f: usize = 1;
        while f <= 6
            invariant
                1 <= f <= 7,
                self.valid(),
                r@ == ordered_upto(self.dice@, f - 1),
            decreases 7 - f,
        {
            let n = self.dice[f - 1];
            let mut j: usize = 0;
            while j < n
                invariant
                    1 <= f <= 6,
                    j <= n,
                    n == self.dice@[f - 1],
                    r@ == ordered_upto(self.dice@, f - 1) + Seq::new(j as nat, |_i: int| f as u8),
                decreases n - j,
            {
                r.push(f as u8);
                j = j + 1;
                assert(r@ == ordered_upto(self.dice@, f - 1) + Seq::new(j as nat, |_i: int| f as u8));
            }
            f = f + 1;
        }
        r
    }

    /// The first `N` dice of the ordered expansion, zeros after the last die.
    pub fn collect_dice<const N: usize>(&self) -> (r: [u8; N])
        requires
            self.valid(),
        ensures
            forall|i: int|
                0 <= i < N ==> #[trigger] r@[i] == if i < ordered_dice(self.dice@).len() {
                    ordered_dice(self.dice@)[i]
                } else {
                    0u8
                },
    {
        let o = self.into_ordered_dice();
        let mut dice = [0u8; N];
        let mut i: usize = 0;
        while i < N
            invariant
                i <= N,
                o@ == ordered_dice(self.dice@),
                dice@.len() == N,
                forall|k: int| 0 <= k < i ==> #[trigger] dice@[k] == if k < o@.len() { o@[k] } else { 0u8 },
                forall|k: int| i <= k < N ==> #[trigger] dice@[k] == 0u8,
            decreases N - i,
        {
            if i < o.len() {
                dice[i] = o[i];
            }
            i = i + 1;
        }
        dice
    }

    /// Same as `collect_dice`.
    pub fn into_ordered_dice_const<const N: usize>(&self) -> (r: [u8; N])
        requires
            self.valid(),
        ensures
            forall|i: int|
                0 <= i < N ==> #[trigger] r@[i] == if i < ordered_dice(self.dice@).len() {
                    ordered_dice(self.dice@)[i]
                } else {
                    0u8
                },
    {
        self.collect_dice::<N>()
    }

    /// Rerolls the dice whose bits are set in `mask`, in the ordered expansion
    /// of this hand of `M` dice: the `j`-th of them shows `new_dice[j]`.
    pub fn overwrite_reroll_dyn<const M: usize>(&self, mask: u8, new_dice: &[u8]) -> (r: Self)
        requires
            self.valid(),
            dice_total(self.dice@) == M,
            new_dice@.len() >= low_bits_set(mask as nat, M as nat),
            proper_faces(new_dice@),
        ensures
            counts_match(r.dice@, reroll_seq(ordered_dice(self.dice@), mask as nat, new_dice@)),
            dice_total(r.dice@) == M,
            r.valid(),
    {
        let mut dice: [u8; M] = self.collect_dice();
        let ghost o = ordered_dice(self.dice@);
        let ghost fresh = new_dice@;
        proof {
            lemma_ordered_dice_counts(self.dice@);
        }
        assert(dice@ == o);
        let mut m: u8 = mask;
        let mut j: usize = 0;
        let mut i: usize = 0;
        assert(o.subrange(0, M as int) == o);
        assert(fresh.subrange(0, fresh.len() as int) == fresh);
        assert(dice@.subrange(0, 0) + reroll_seq(o, mask as nat, fresh) == reroll_seq(o, mask as nat, fresh));
        while i < M
            invariant
                i <= M,
                o.len() == M,
                dice@.len() == M,
                proper_faces(o),
                proper_faces(fresh),
                fresh == new_dice@,
                low_bits_set(mask as nat, M as nat) == j + low_bits_set(m as nat, (M - i) as nat),
                j <= fresh.len(),
                low_bits_set(mask as nat, M as nat) <= fresh.len(),
                dice@.subrange(i as int, M as int) == o.subrange(i as int, M as int),
                forall|k: int| 0 <= k < i ==> 1 <= #[trigger] dice@[k] <= 6,
                reroll_seq(o, mask as nat, fresh) == dice@.subrange(0, i as int) + reroll_seq(
                    o.subrange(i as int, M as int),
                    m as nat,
                    fresh.subrange(j as int, fresh.len() as int),
                ),
            decreases M - i,
        {
            let ghost rest = o.subrange(i as int, M as int);
            let ghost fr = fresh.subrange(j as int, fresh.len() as int);
            assert(rest.drop_first() == o.subrange(i + 1, M as int));
            assert(rest[0] == dice@[i as int]);
            assert(dice@[i as int] == o[i as int]);
            if m % 2 == 1 {
                assert(fr.drop_first() == fresh.subrange(j + 1, fresh.len() as int));
                assert(1 <= fresh[j as int] <= 6);
                dice[i] = new_dice[j];
                j = j + 1;
            }
            assert(1 <= dice@[i as int] <= 6);
            m = m / 2;
            i = i + 1;
            assert(dice@.subrange(i as int, M as int) == o.subrange(i as int, M as int));
            assert(dice@.subrange(0, i as int) == dice@.subrange(0, i - 1) + seq![dice@[i - 1]]);
        }
        assert(o.subrange(M as int, M as int) == Seq::<u8>::empty());
        assert(dice@.subrange(0, M as int) == dice@);
        Self::from_dice(&dice)
    }

    /// `overwrite_reroll_dyn` with the new dice in an array.
    pub fn overwrite_reroll<const M: usize, const N: usize>(&self, mask: u8, new_dice: [u8; N]) -> (r: Self)
        requires
            self.valid(),
            dice_total(self.dice@) == M,
            N >= low_bits_set(mask as nat, M as nat),
            proper_faces(new_dice@),
        ensures
            counts_match(r.dice@, reroll_seq(ordered_dice(self.dice@), mask as nat, new_dice@)),
            dice_total(r.dice@) == M,
            r.valid(),
    {
        self.overwrite_reroll_dyn::<M>(mask, &new_dice)
    }

    /// The dice whose bits are set in `mask`, in the ordered expansion.
    pub fn get_subthrow(&self, mask: u8) -> (r: Self)
        requires
            self.valid(),
        ensures
            counts_match(r.dice@, select(ordered_dice(self.dice@), mask as nat)),
            r.valid(),
    {
        let o = self.into_ordered_dice();
        proof {
            lemma_ordered_dice_counts(self.dice@);
        }
        let mut picked: Vec<u8> = Vec::new();
        let mut m: u8 = mask;
        let mut i: usize = 0;
        assert(o@.subrange(0, o@.len() as int) == o@);
        assert(picked@ + select(o@, mask as nat) == select(o@, mask as nat));
        while i < o.len()
            invariant
                i <= o@.len() <= 6,
                proper_faces(o@),
                picked@.len() <= i,
                proper_faces(picked@),
                select(o@, mask as nat) == picked@ + select(o@.subrange(i as int, o@.len() as int), m as nat),
            decreases o@.len() - i,
        {
            let ghost rest = o@.subrange(i as int, o@.len() as int);
            assert(rest.drop_first() == o@.subrange(i + 1, o@.len() as int));
            if m % 2 == 1 {
                picked.push(o[i]);
            }
            m = m / 2;
            i = i + 1;
        }
        assert(o@.subrange(o@.len() as int, o@.len() as int) == Seq::<u8>::empty());
        assert(picked@ + Seq::<u8>::empty() == picked@);
        Self::from_dice(picked.as_slice())
    }

    /// The mask over the ordered expansion that selects `sub_throw` (as a
    /// reroll mask: rolls those dice again): for each die in turn, its bit is
    /// set when `sub_throw` still asks for its face.
    pub fn get_mask(&self, sub_throw: DiceThrow) -> (r: u8)
        requires
            self.valid(),
        ensures
            r == mask_of(ordered_dice(self.dice@), sub_throw.dice@),
    {
        let o = self.into_ordered_dice();
        proof {
            lemma_ordered_dice_counts(self.dice@);
            reveal_with_fuel(crate::util::two_pow, 7);
        }
        let mut sub = sub_throw;
        let mut mask: u8 = 0;
        let mut place: u8 = 1;
        let mut i: usize = 0;
        assert(o@.subrange(0, o@.len() as int) == o@);
        assert(crate::util::two_pow(6) == 64);
        while i < o.len()
            invariant
                i <= o@.len() <= 6,
                crate::util::two_pow(6) == 64,
                proper_faces(o@),
                place == crate::util::two_pow(i as nat),
                mask < place,
                mask_of(o@, sub_throw.dice@) == mask + place * mask_of(
                    o@.subrange(i as int, o@.len() as int),
                    sub.dice@,
                ),
            decreases o@.len() - i,
        {
            let ghost rest = o@.subrange(i as int, o@.len() as int);
            let ghost before = sub.dice@;
            assert(rest.drop_first() == o@.subrange(i + 1, o@.len() as int));
            let d = o[i];
            proof {
                crate::util::lemma_two_pow_monotonic((i + 1) as nat, 6);
            }
            let ghost tail = o@.subrange(i + 1, o@.len() as int);
            if sub.dice[(d - 1) as usize] > 0 {
                let c = sub.dice[(d - 1) as usize];
                sub.dice[(d - 1) as usize] = c - 1;
                assert(sub.dice@ == before.update(d - 1, (before[d - 1] - 1) as usize));
                let ghost t = mask_of(tail, sub.dice@);
                assert(place * (1 + 2 * t) == place + (2 * place) * t) by (nonlinear_arith);
                mask = mask + place;
            } else {
                let ghost t = mask_of(tail, sub.dice@);
                assert(place * (2 * t) == (2 * place) * t) by (nonlinear_arith);
            }
            place = place * 2;
            i = i + 1;
        }
        assert(mask_of(o@.subrange(o@.len() as int, o@.len() as int), sub.dice@) == 0);
        assert(place * 0 == 0) by (nonlinear_arith);
        mask
    }

    /// Every sub-hand of this hand (including the empty one and the hand
    /// itself) once, in lexicographic order of the count vector.
    pub fn into_sub_throw_iter(self) -> (r: Vec<DiceThrow>)
        ensures
            forall|i: int| 0 <= i < r@.len() ==> is_sub_hand(self.dice@, #[trigger] r@[i].dice@),
            forall|i: int, j: int|
                0 <= i < j < r@.len() ==> crate::dice_distributions::hand_key(#[trigger] r@[i].dice@)
                    < crate::dice_distributions::hand_key(#[trigger] r@[j].dice@),
            forall|c: Seq<usize>| #[trigger]
                is_sub_hand(self.dice@, c) && self.valid() ==> exists|i: int| 0 <= i < r@.len() && r@[i].dice@ == c,
    {
        let mut r: Vec<DiceThrow> = Vec::new();
        let mut k: usize = 0;
        while k < crate::dice_distributions::KEY_SPACE
            invariant
                k <= crate::dice_distributions::KEY_SPACE,
                forall|i: int| 0 <= i < r@.len() ==> is_sub_hand(self.dice@, #[trigger] r@[i].dice@)
                    && crate::dice_distributions::hand_key(r@[i].dice@) < k,
                forall|i: int, j: int|
                    0 <= i < j < r@.len() ==> crate::dice_distributions::hand_key(#[trigger] r@[i].dice@)
                        < crate::dice_distributions::hand_key(#[trigger] r@[j].dice@),
                forall|c: Seq<usize>| #[trigger]
                    is_sub_hand(self.dice@, c) && self.valid() && crate::dice_distributions::hand_key(c) < k ==> exists|i: int|
                        0 <= i < r@.len() && r@[i].dice@ == c,
            decreases crate::dice_distributions::KEY_SPACE - k,
        {
            let c = crate::dice_distributions::hand_from_key(k);
            let ghost old_r = r@;
            let fits = c.dice[0] <= self.dice[0] && c.dice[1] <= self.dice[1] && c.dice[2] <= self.dice[2]
                && c.dice[3] <= self.dice[3] && c.dice[4] <= self.dice[4] && c.dice[5] <= self.dice[5];
            if fits {
                r.push(c);
            }
            assert forall|x: Seq<usize>| #[trigger]
                is_sub_hand(self.dice@, x) && self.valid() && crate::dice_distributions::hand_key(x) < k + 1 implies exists|i: int|
                0 <= i < r@.len() && r@[i].dice@ == x by {
                if crate::dice_distributions::hand_key(x) == k {
                    assert(x[0] <= self.dice@[0] && x[1] <= self.dice@[1] && x[2] <= self.dice@[2]);
                    assert(x[3] <= self.dice@[3] && x[4] <= self.dice@[4] && x[5] <= self.dice@[5]);
                    assert(forall|i: int| 0 <= i < 6 ==> #[trigger] x[i] < 8);
                    crate::dice_distributions::lemma_hand_key_injective(x, c.dice@);
                    assert(r@[r@.len() - 1].dice@ == x);
                } else {
                    let i = choose|i: int| 0 <= i < old_r.len() && old_r[i].dice@ == x;
                    assert(r@[i] == old_r[i]);
                }
            }
            k = k + 1;
        }
        assert forall|c: Seq<usize>| #[trigger] is_sub_hand(self.dice@, c) && self.valid() implies exists|i: int|
            0 <= i < r@.len() && r@[i].dice@ == c by {
            assert(c[0] <= self.dice@[0] && c[1] <= self.dice@[1] && c[2] <= self.dice@[2]);
            assert(c[3] <= self.dice@[3] && c[4] <= self.dice@[4] && c[5] <= self.dice@[5]);
            assert(crate::dice_distributions::hand_key(c) < crate::dice_distributions::KEY_SPACE);
        }
        r
    }

    /// One reroll mask for each sub-hand to roll again, in the order of
    /// `into_sub_throw_iter`, as `get_mask` gives it.
    pub fn into_mask_iter(self) -> (r: Vec<u8>)
        requires
            self.valid(),
        ensures
            masks_of_sub_hands(self.dice@, r@),
            forall|i: int| 0 <= i < r@.len() ==> selects_a_sub_hand(self.dice@, #[trigger] r@[i]),
            forall|c: Seq<usize>| #[trigger]
                is_sub_hand(self.dice@, c) ==> exists|i: int|
                    0 <= i < r@.len() && r@[i] == mask_of(ordered_dice(self.dice@), c),
    {
        let subs = self.into_sub_throw_iter();
        let mut r: Vec<u8> = Vec::new();
        let mut i: usize = 0;
        while i < subs.len()
            invariant
                self.valid(),
                i <= subs@.len(),
                r@.len() == i,
                forall|j: int| 0 <= j < subs@.len() ==> is_sub_hand(self.dice@, #[trigger] subs@[j].dice@),
                forall|j: int| 0 <= j < i ==> #[trigger] r@[j] == mask_of(ordered_dice(self.dice@), subs@[j].dice@),
            decreases subs@.len() - i,
        {
            let m = self.get_mask(subs[i]);
            r.push(m);
            i = i + 1;
        }
        assert forall|j: int| 0 <= j < r@.len() implies selects_a_sub_hand(self.dice@, #[trigger] r@[j]) by {
            assert(is_sub_hand(self.dice@, subs@[j].dice@) && r@[j] == mask_of(
                ordered_dice(self.dice@),
                subs@[j].dice@,
            ));
        }
        let ghost chosen = subs@.map_values(|d: DiceThrow| d.dice@);
        assert(lists_sub_hands(self.dice@, chosen)) by {
            assert forall|c: Seq<usize>| #[trigger] is_sub_hand(self.dice@, c) implies exists|j: int|
                0 <= j < chosen.len() && chosen[j] == c by {
                let j = choose|j: int| 0 <= j < subs@.len() && subs@[j].dice@ == c;
                assert(chosen[j] == c);
            }
            assert forall|i: int, j: int| 0 <= i < j < chosen.len() implies crate::dice_distributions::hand_key(
                #[trigger] chosen[i],
            ) < crate::dice_distributions::hand_key(#[trigger] chosen[j]) by {
                assert(chosen[i] == subs@[i].dice@ && chosen[j] == subs@[j].dice@);
            }
        }
        assert(r@.len() == chosen.len() && forall|i: int|
            0 <= i < r@.len() ==> r@[i] == mask_of(ordered_dice(self.dice@), #[trigger] chosen[i]));
        assert forall|c: Seq<usize>| #[trigger] is_sub_hand(self.dice@, c) implies exists|j: int|
            0 <= j < r@.len() && r@[j] == mask_of(ordered_dice(self.dice@), c) by {
            let j = choose|j: int| 0 <= j < subs@.len() && subs@[j].dice@ == c;
            assert(r@[j] == mask_of(ordered_dice(self.dice@), c));
        }
        r
    }

    /// How many dice the hand holds.
    pub fn amt_dice(&self) -> (r: usize)
        requires
            self.valid(),
        ensures
            r == dice_total(self.dice@),
    {
        self.dice[0] + self.dice[1] + self.dice[2] + self.dice[3] + self.dice[4] + self.dice[5]
    }

    /// Points for the upper category of face `N`.
    pub fn ammount_of<const N: usize>(&self) -> (r: usize)
        requires
            1 <= N <= 6,
            self.valid(),
        ensures
            r == amount_of_spec(self.dice@, N as int),
            r <= 100,
    {
        let d = self.dice[N - 1];
        assert(N * d <= 36 && N * d == d * N) by (nonlinear_arith)
            requires
                N <= 6,
                d <= 6,
        ;
        N * d
    }

    fn top_face(&self, k: usize, excl: usize) -> (r: usize)
        ensures
            r == top_face(self.dice@, 6, k as int, excl as int),
            r <= 6,
            r > 0 ==> self.dice@[r - 1] >= k && r != excl,
    {
        let mut i: usize = 6;
        while i > 0
            invariant
                i <= 6,
                top_face(self.dice@, 6, k as int, excl as int) == top_face(
                    self.dice@,
                    i as int,
                    k as int,
                    excl as int,
                ),
            decreases i,
        {
            if i != excl && self.dice[i - 1] >= k {
                return i;
            }
            i = i - 1;
        }
        0
    }

    /// `N` pairs (see `pairs_spec`).
    pub fn pairs<const N: usize>(&self) -> (r: usize)
        requires
            self.valid(),
        ensures
            r == pairs_spec(self.dice@, N as int),
            r <= 100,
    {
        let mut score: usize = 0;
        let mut amt: usize = 0;
        let mut i: usize = 6;
        while i > 0
            invariant
                i <= 6,
                amt <= N,
                score <= 12 * amt,
                amt <= 6 - i,
                top_pairs_sum(self.dice@, 6, N as int) == score + top_pairs_sum(
                    self.dice@,
                    i as int,
                    N - amt,
                ),
                amt as int == if N <= pair_faces(self.dice@, 6) - pair_faces(self.dice@, i as int) {
                    N as int
                } else {
                    pair_faces(self.dice@, 6) - pair_faces(self.dice@, i as int)
                },
            decreases i,
        {
            if amt < N && self.dice[i - 1] >= 2 {
                score = score + i * 2;
                amt = amt + 1;
            }
            i = i - 1;
        }
        if amt == N {
            score
        } else {
            0
        }
    }

    /// `N` of a kind (see `n_of_a_kind_spec`).
    pub fn n_of_a_kind<const N: usize>(&self) -> (r: usize)
        requires
            self.valid(),
        ensures
            r == n_of_a_kind_spec(self.dice@, N as int),
            r <= 100,
    {
        let f = self.top_face(N, 0);
        if f == 0 {
            assert(N * f == 0) by (nonlinear_arith)
                requires
                    f == 0,
            ;
            0
        } else {
            let c = self.dice[f - 1];
            assert(f * N <= 36 && f * N == N * f) by (nonlinear_arith)
                requires
                    N <= c <= 6,
                    f <= 6,
            ;
            f * N
        }
    }

    /// The straight from `A` to `B` (see `straight_spec`).
    pub fn straight<const A: usize, const B: usize>(&self) -> (r: usize)
        requires
            1 <= A <= B <= 6,
        ensures
            r == straight_spec(self.dice@, A as int, B as int),
            r <= 100,
    {
        let mut i: usize = A;
        let mut sum: usize = 0;
        while i <= B
            invariant
                1 <= A <= i <= B + 1,
                B <= 6,
                sum == range_sum(A as int, i - 1),
                sum <= i * 6,
                covers(self.dice@, A as int, i - 1),
            decreases B + 1 - i,
        {
            if self.dice[i - 1] < 1 {
                return 0;
            }
            sum = sum + i;
            i = i + 1;
        }
        sum
    }

    /// The building of `A` and `B` dice (see `building_spec`).
    pub fn building<const A: usize, const B: usize>(&self) -> (r: usize)
        requires
            self.valid(),
        ensures
            r == building_spec(self.dice@, A as int, B as int),
            r <= 100,
    {
        let a = self.top_face(A, 0);
        if a == 0 {
            return 0;
        }
        let b = self.top_face(B, a);
        if b == 0 {
            0
        } else {
            let ca = self.dice[a - 1];
            let cb = self.dice[b - 1];
            assert(A * a <= 36 && B * b <= 36) by (nonlinear_arith)
                requires
                    A <= ca <= 6,
                    B <= cb <= 6,
                    a <= 6,
                    b <= 6,
            ;
            A * a + B * b
        }
    }

    /// The sum of all dice.
    pub fn chance(&self) -> (r: usize)
        requires
            self.valid(),
        ensures
            r == chance_spec(self.dice@),
            r <= 100,
    {
        self.dice[0] + 2 * self.dice[1] + 3 * self.dice[2] + 4 * self.dice[3] + 5 * self.dice[4] + 6
            * self.dice[5]
    }

    /// Yatzy (see `yatzy_spec`).
    pub fn yatzy(&self) -> (r: usize)
        requires
            dice_total(self.dice@) == 5 || dice_total(self.dice@) == 6,
        ensures
            r == yatzy_spec(self.dice@),
            r <= 100,
    {
        let amt = self.amt_dice();
        let mut i: usize = 0;
        while i < 6
            invariant
                i <= 6,
                amt == dice_total(self.dice@),
                forall|f: int| 0 <= f < i ==> self.dice@[f] != amt,
            decreases 6 - i,
        {
            if self.dice[i] == amt {
                return if amt == 5 {
                    50
                } else {
                    100
                };
            }
            i = i + 1;
        }
        0
    }

    /// The points this hand scores in category `cell_ind` of the game with
    /// `N` dice.
    pub fn cell_score<const N: usize>(&self, cell_ind: usize) -> (r: usize)
        requires
            N == 5 || N == 6,
            dice_total(self.dice@) == N,
            cell_ind < n_categories(N as int),
        ensures
            r == category_score(N as int, self.dice@, cell_ind as int),
            r <= 100,
    {
        match (N, cell_ind) {
            (_, 0) => self.ammount_of::<1>(),
            (_, 1) => self.ammount_of::<2>(),
            (_, 2) => self.ammount_of::<3>(),
            (_, 3) => self.ammount_of::<4>(),
            (_, 4) => self.ammount_of::<5>(),
            (_, 5) => self.ammount_of::<6>(),
            (_, 6) => self.pairs::<1>(),
            (_, 7) => self.pairs::<2>(),
            (6, 8) => self.pairs::<3>(),
            (5, 8) | (6, 9) => self.n_of_a_kind::<3>(),
            (5, 9) | (6, 10) => self.n_of_a_kind::<4>(),
            (6, 11) => self.n_of_a_kind::<5>(),
            (5, 10) | (6, 12) => self.straight::<1, 5>(),
            (5, 11) | (6, 13) => self.straight::<2, 6>(),
            (6, 14) => self.straight::<1, 6>(),
            (5, 12) | (6, 15) => self.building::<3, 2>(),
            (6, 16) => self.building::<3, 3>(),
            (6, 17) => self.building::<4, 2>(),
            (5, 13) | (6, 18) => self.chance(),
            _ => self.yatzy(),
        }
    }
}

} // verus!
