use crate::dice_throw::{
    count_low_bits, counts_match, dice_total, lemma_ordered_dice_counts, low_bits_set, ordered_dice,
    proper_faces, reroll_seq, DiceThrow,
};
use crate::util::two_pow;
use vstd::arithmetic::div_mod::lemma_fundamental_div_mod;
use vstd::prelude::*;

verus! {

/// How many count vectors with digits below 8 there are: `8^6`.
pub const KEY_SPACE: usize = 262144;

/// A count vector read as a number in base 8, the count of ones being the
/// most significant digit. On hands this orders lexicographically.
pub open spec fn hand_key(s: Seq<usize>) -> int {
    ((((s[0] * 8 + s[1]) * 8 + s[2]) * 8 + s[3]) * 8 + s[4]) * 8 + s[5]
}

/// Whether `s` is a hand of `n` dice.
pub open spec fn is_hand(n: int, s: Seq<usize>) -> bool {
    s.len() == 6 && dice_total(s) == n
}

/// `hs` lists every hand of `n` dice once, in lexicographic order of the count
/// vector.
pub open spec fn lists_all_hands(n: int, hs: Seq<Seq<usize>>) -> bool {
    &&& forall|i: int| 0 <= i < hs.len() ==> is_hand(n, #[trigger] hs[i])
    &&& forall|i: int, j: int|
        0 <= i < j < hs.len() ==> hand_key(#[trigger] hs[i]) < hand_key(#[trigger] hs[j])
    &&& forall|h: Seq<usize>| #[trigger] is_hand(n, h) ==> exists|i: int| 0 <= i < hs.len() && hs[i] == h
}

/// `6^k`.
pub open spec fn six_pow(k: nat) -> nat
    decreases k,
{
    if k == 0 {
        1
    } else {
        6 * six_pow((k - 1) as nat)
    }
}

/// The `c`-th of the `6^k` ordered rolls of `k` dice: the digits of `c` in base
/// 6, least significant first, each plus one.
pub open spec fn outcome(k: nat, c: nat) -> Seq<u8>
    decreases k,
{
    if k == 0 {
        Seq::empty()
    } else {
        seq![(c % 6 + 1) as u8] + outcome((k - 1) as nat, c / 6)
    }
}

/// Among the first `limit` rolls of the `k` rerolled dice, how many turn the
/// dice `d` under reroll mask `m` into hand `h`.
pub open spec fn reroll_hits(d: Seq<u8>, m: nat, k: nat, limit: nat, h: Seq<usize>) -> nat
    decreases limit,
{
    if limit == 0 {
        0
    } else {
        reroll_hits(d, m, k, (limit - 1) as nat, h) + if counts_match(
            h,
            reroll_seq(d, m, outcome(k, (limit - 1) as nat)),
        ) {
            1nat
        } else {
            0
        }
    }
}

/// Among the first `limit` ordered rolls of `k` dice, how many show hand `h`.
pub open spec fn roll_hits(k: nat, limit: nat, h: Seq<usize>) -> nat
    decreases limit,
{
    if limit == 0 {
        0
    } else {
        roll_hits(k, (limit - 1) as nat, h) + if counts_match(h, outcome(k, (limit - 1) as nat)) {
            1nat
        } else {
            0
        }
    }
}

/// The sum of a sequence of counts.
pub open spec fn seq_sum(s: Seq<u32>) -> int
    decreases s.len(),
{
    if s.len() == 0 {
        0
    } else {
        seq_sum(s.drop_last()) + s.last()
    }
}

pub proof fn lemma_seq_sum_update(s: Seq<u32>, i: int, v: u32)
    requires
        0 <= i < s.len(),
    ensures
        seq_sum(s.update(i, v)) == seq_sum(s) - s[i] + v,
    decreases s.len(),
{
    if i < s.len() - 1 {
        lemma_seq_sum_update(s.drop_last(), i, v);
        assert(s.update(i, v).drop_last() == s.drop_last().update(i, v));
    } else {
        assert(s.update(i, v).drop_last() == s.drop_last());
    }
}

proof fn lemma_seq_sum_zeros(s: Seq<u32>)
    requires
        forall|i: int| 0 <= i < s.len() ==> s[i] == 0,
    ensures
        seq_sum(s) == 0,
    decreases s.len(),
{
    if s.len() > 0 {
        lemma_seq_sum_zeros(s.drop_last());
    }
}

pub proof fn lemma_hand_key_injective(a: Seq<usize>, b: Seq<usize>)
    requires
        a.len() == 6,
        b.len() == 6,
        forall|i: int| 0 <= i < 6 ==> #[trigger] a[i] < 8,
        forall|i: int| 0 <= i < 6 ==> #[trigger] b[i] < 8,
        hand_key(a) == hand_key(b),
    ensures
        a == b,
{
    assert(a[0] < 8 && a[1] < 8 && a[2] < 8 && a[3] < 8 && a[4] < 8 && a[5] < 8);
    assert(b[0] < 8 && b[1] < 8 && b[2] < 8 && b[3] < 8 && b[4] < 8 && b[5] < 8);
    assert(a =~= b);
}

/// Two hands of a list in key order are equal only at one position.
proof fn lemma_sorted_unique(hs: Seq<Seq<usize>>, i: int, j: int)
    requires
        forall|x: int, y: int|
            0 <= x < y < hs.len() ==> hand_key(#[trigger] hs[x]) < hand_key(#[trigger] hs[y]),
        0 <= i < hs.len(),
        0 <= j < hs.len(),
        hs[i] == hs[j],
    ensures
        i == j,
{
    if i < j {
        assert(hand_key(hs[i]) < hand_key(hs[j]));
    } else if j < i {
        assert(hand_key(hs[j]) < hand_key(hs[i]));
    }
}

/// A count vector is fixed by the dice it counts.
proof fn lemma_counts_match_unique(a: Seq<usize>, b: Seq<usize>, d: Seq<u8>)
    requires
        counts_match(a, d),
        counts_match(b, d),
    ensures
        a == b,
{
    assert(a =~= b);
}

proof fn lemma_outcome_faces(k: nat, c: nat)
    ensures
        outcome(k, c).len() == k,
        proper_faces(outcome(k, c)),
    decreases k,
{
    if k > 0 {
        lemma_outcome_faces((k - 1) as nat, c / 6);
        let t = outcome((k - 1) as nat, c / 6);
        assert forall|i: int| 0 <= i < outcome(k, c).len() implies 1 <= #[trigger] outcome(k, c)[i] <= 6 by {
            if i > 0 {
                assert(outcome(k, c)[i] == t[i - 1]);
            }
        }
    }
}

pub proof fn lemma_six_pow_monotonic(a: nat, b: nat)
    requires
        a <= b,
    ensures
        1 <= six_pow(a) <= six_pow(b),
    decreases b,
{
    if b > a {
        lemma_six_pow_monotonic(a, (b - 1) as nat);
    } else if a > 0 {
        lemma_six_pow_monotonic((a - 1) as nat, (a - 1) as nat);
    }
}

proof fn lemma_six_pow_six()
    ensures
        six_pow(6) == 46656,
{
    reveal_with_fuel(six_pow, 7);
}

/// With no bit set, a reroll leaves the dice as they are.
proof fn lemma_reroll_none(d: Seq<u8>, fresh: Seq<u8>)
    ensures
        reroll_seq(d, 0, fresh) == d,
    decreases d.len(),
{
    if d.len() > 0 {
        lemma_reroll_none(d.drop_first(), fresh);
        assert(seq![d[0]] + d.drop_first() == d);
    }
}

/// With every bit set, a reroll replaces all dice.
proof fn lemma_reroll_all(d: Seq<u8>, fresh: Seq<u8>)
    requires
        fresh.len() == d.len(),
    ensures
        reroll_seq(d, (two_pow(d.len()) - 1) as nat, fresh) == fresh,
        low_bits_set((two_pow(d.len()) - 1) as nat, d.len()) == d.len(),
    decreases d.len(),
{
    if d.len() > 0 {
        lemma_reroll_all(d.drop_first(), fresh.drop_first());
        crate::util::lemma_two_pow_monotonic(0, (d.len() - 1) as nat);
        assert(seq![fresh[0]] + fresh.drop_first() == fresh);
    }
}

proof fn lemma_full_reroll_hits(d: Seq<u8>, n: nat, limit: nat, h: Seq<usize>)
    requires
        d.len() == n,
    ensures
        reroll_hits(d, (two_pow(n) - 1) as nat, n, limit, h) == roll_hits(n, limit, h),
    decreases limit,
{
    if limit > 0 {
        lemma_full_reroll_hits(d, n, (limit - 1) as nat, h);
        lemma_outcome_faces(n, (limit - 1) as nat);
        lemma_reroll_all(d, outcome(n, (limit - 1) as nat));
    }
}

/// Positions and hands correspond one to one: two positions that hold the same
/// hand are the same position, so looking up the hand at position `i` gives
/// back `i`; and every hand of `N` dice has a position (the listing is
/// complete), whose hand is the one looked up.
pub proof fn lemma_hand_bijection<const N: usize>(table: &HandTable<N>, i: int, j: int, h: Seq<usize>)
    requires
        table.wf(),
        0 <= i < table@.len(),
        0 <= j < table@.len(),
        is_hand(N as int, h),
    ensures
        table@[i] == table@[j] ==> i == j,
        exists|k: int| 0 <= k < table@.len() && table@[k] == h,
{
    if table@[i] == table@[j] {
        lemma_sorted_unique(table@, i, j);
    }
}

proof fn lemma_low_bits_of_zero(k: nat)
    ensures
        low_bits_set(0, k) == 0,
    decreases k,
{
    if k > 0 {
        lemma_low_bits_of_zero((k - 1) as nat);
    }
}

/// Rerolling no die leaves the hand as it is: with mask 0 there is one roll
/// of no dice, and it gives back the hand itself and no other.
pub proof fn lemma_keep_all_is_identity<const N: usize>(table: &HandTable<N>, t: int, j: int)
    requires
        table.wf(),
        0 <= t < table@.len(),
        0 <= j < table@.len(),
    ensures
        low_bits_set(0, N as nat) == 0,
        reroll_hits(ordered_dice(table@[t]), 0, 0, six_pow(0), table@[j]) == if j == t {
            1nat
        } else {
            0
        },
{
    lemma_low_bits_of_zero(N as nat);
    let o = ordered_dice(table@[t]);
    assert(is_hand(N as int, table@[t]));
    lemma_ordered_dice_counts(table@[t]);
    lemma_reroll_none(o, outcome(0, 0));
    assert(six_pow(0) == 1);
    assert(reroll_hits(o, 0, 0, 0, table@[j]) == 0);
    assert(reroll_hits(o, 0, 0, 1, table@[j]) == if counts_match(table@[j], o) {
        1nat
    } else {
        0
    });
    if counts_match(table@[j], o) {
        lemma_counts_match_unique(table@[j], table@[t], o);
        lemma_sorted_unique(table@, j, t);
    }
}

/// The count vector whose key is `k`.
pub fn hand_from_key(k: usize) -> (r: DiceThrow)
    requires
        k < KEY_SPACE,
    ensures
        hand_key(r.dice@) == k,
        forall|i: int| 0 <= i < 6 ==> #[trigger] r.dice@[i] < 8,
{
    let q0 = k;
    let d5 = q0 % 8;
    let q1 = q0 / 8;
    let d4 = q1 % 8;
    let q2 = q1 / 8;
    let d3 = q2 % 8;
    let q3 = q2 / 8;
    let d2 = q3 % 8;
    let q4 = q3 / 8;
    let d1 = q4 % 8;
    let q5 = q4 / 8;
    let d0 = q5 % 8;
    proof {
        lemma_fundamental_div_mod(q0 as int, 8);
        lemma_fundamental_div_mod(q1 as int, 8);
        lemma_fundamental_div_mod(q2 as int, 8);
        lemma_fundamental_div_mod(q3 as int, 8);
        lemma_fundamental_div_mod(q4 as int, 8);
        lemma_fundamental_div_mod(q5 as int, 8);
    }
    let hand = DiceThrow { dice: [d0, d1, d2, d3, d4, d5] };
    assert(q5 < 8);
    assert(hand_key(hand.dice@) == k);
    hand
}

/// The position of hand `h` in `table`.
pub open spec fn hand_pos<const N: usize>(table: HandTable<N>, h: Seq<usize>) -> int {
    choose|j: int| 0 <= j < table@.len() && table@[j] == h
}

/// The hands of `N` dice in lexicographic order, with the inverse map.
pub struct HandTable<const N: usize> {
    hands: Vec<DiceThrow>,
    index: Vec<usize>,
}

impl<const N: usize> HandTable<N> {
    /// The hands, position by position.
    pub closed spec fn view(&self) -> Seq<Seq<usize>> {
        self.hands@.map_values(|h: DiceThrow| h.dice@)
    }

    pub closed spec fn index_ok(&self) -> bool {
        &&& self.index@.len() == KEY_SPACE
        &&& forall|h: Seq<usize>|
            #[trigger] is_hand(N as int, h) ==> {
                let i = self.index@[hand_key(h)] as int;
                0 <= i < self.hands@.len() && self.hands@[i].dice@ == h
            }
    }

    pub open spec fn wf(&self) -> bool {
        &&& N == 5 || N == 6
        &&& lists_all_hands(N as int, self@)
        &&& self.index_ok()
    }

    /// Enumerates the hands of `N` dice.
    #[verifier::rlimit(60)]
    pub fn new() -> (r: Self)
        requires
            N == 5 || N == 6,
        ensures
            r.wf(),
    {
        let mut hands: Vec<DiceThrow> = Vec::new();
        let mut index: Vec<usize> = Vec::new();
        let mut k: usize = 0;
        while k < KEY_SPACE
            invariant
                N == 5 || N == 6,
                k <= KEY_SPACE,
                index@.len() == k,
                hands@.len() <= k,
                forall|i: int|
                    0 <= i < hands@.len() ==> is_hand(N as int, #[trigger] hands@[i].dice@) && hand_key(
                        hands@[i].dice@,
                    ) < k && index@[hand_key(hands@[i].dice@)] == i,
                forall|i: int, j: int|
                    0 <= i < j < hands@.len() ==> hand_key(#[trigger] hands@[i].dice@) < hand_key(
                        #[trigger] hands@[j].dice@,
                    ),
                forall|h: Seq<usize>|
                    #[trigger] is_hand(N as int, h) && hand_key(h) < k ==> {
                        let i = index@[hand_key(h)] as int;
                        0 <= i < hands@.len() && hands@[i].dice@ == h
                    },
            decreases KEY_SPACE - k,
        {
            let hand = hand_from_key(k);
            let (d0, d1, d2, d3, d4, d5) = (hand.dice[0], hand.dice[1], hand.dice[2], hand.dice[3], hand.dice[4], hand.dice[5]);
            let ghost old_hands = hands@;
            let ghost old_index = index@;
            if d0 + d1 + d2 + d3 + d4 + d5 == N {
                let pos = hands.len();
                hands.push(hand);
                index.push(pos);
            } else {
                index.push(0);
            }
            assert forall|h: Seq<usize>| #[trigger]
                is_hand(N as int, h) && hand_key(h) < k + 1 implies {
                let i = index@[hand_key(h)] as int;
                0 <= i < hands@.len() && hands@[i].dice@ == h
            } by {
                if hand_key(h) == k {
                    assert(h[0] <= 6 && h[1] <= 6 && h[2] <= 6 && h[3] <= 6 && h[4] <= 6 && h[5] <= 6);
                    assert(hand.dice@.len() == 6);
                    lemma_hand_key_injective(h, hand.dice@);
                } else {
                    assert(index@[hand_key(h)] == old_index[hand_key(h)]);
                    let i = old_index[hand_key(h)] as int;
                    assert(hands@[i] == old_hands[i]);
                }
            }
            assert forall|i: int|
                0 <= i < hands@.len() implies is_hand(N as int, #[trigger] hands@[i].dice@) && hand_key(
                hands@[i].dice@,
            ) < k + 1 && index@[hand_key(hands@[i].dice@)] == i by {
                if i < old_hands.len() {
                    assert(hands@[i] == old_hands[i]);
                }
            }
            k = k + 1;
        }
        let r = HandTable { hands, index };
        assert forall|h: Seq<usize>| #[trigger] is_hand(N as int, h) implies exists|i: int|
            0 <= i < r@.len() && r@[i] == h by {
            assert(h[0] <= 6 && h[1] <= 6 && h[2] <= 6 && h[3] <= 6 && h[4] <= 6 && h[5] <= 6);
            let i = r.index@[hand_key(h)] as int;
            assert(r@[i] == h);
        }
        assert forall|i: int, j: int| 0 <= i < j < r@.len() implies hand_key(#[trigger] r@[i]) < hand_key(
            #[trigger] r@[j],
        ) by {
            assert(r@[i] == r.hands@[i].dice@);
            assert(r@[j] == r.hands@[j].dice@);
        }
        assert forall|i: int| 0 <= i < r@.len() implies is_hand(N as int, #[trigger] r@[i]) by {
            assert(r@[i] == r.hands@[i].dice@);
        }
        r
    }

    /// How many hands of `N` dice there are.
    pub fn hand_count(&self) -> (r: usize)
        requires
            self.wf(),
        ensures
            r == self@.len(),
    {
        self.hands.len()
    }

    /// The hand at position `idx`.
    pub fn hand_of(&self, idx: usize) -> (r: DiceThrow)
        requires
            self.wf(),
            idx < self@.len(),
        ensures
            r.dice@ == self@[idx as int],
            is_hand(N as int, r.dice@),
            r.valid(),
    {
        proof {
            assert(is_hand(N as int, self@[idx as int]));
        }
        self.hands[idx]
    }

    /// The position of hand `h`.
    pub fn index_of(&self, h: &DiceThrow) -> (r: usize)
        requires
            self.wf(),
            is_hand(N as int, h.dice@),
        ensures
            r < self@.len(),
            self@[r as int] == h.dice@,
            r as int == hand_pos(*self, h.dice@),
    {
        let s = h.dice;
        let key = ((((s[0] * 8 + s[1]) * 8 + s[2]) * 8 + s[3]) * 8 + s[4]) * 8 + s[5];
        assert(key == hand_key(h.dice@));
        let r = self.index[key];
        assert(self@[r as int] == self.hands@[r as int].dice@);
        proof {
            let j = hand_pos(*self, h.dice@);
            assert(0 <= j < self@.len() && self@[j] == h.dice@);
            lemma_sorted_unique(self@, r as int, j);
        }
        r
    }

    /// The `c`-th ordered roll of `k` dice.
    fn roll_of(k: usize, c: usize) -> (r: Vec<u8>)
        ensures
            r@ == outcome(k as nat, c as nat),
    {
        let mut r: Vec<u8> = Vec::new();
        let mut cur: usize = c;
        let mut j: usize = 0;
        assert(r@ + outcome(k as nat, c as nat) == outcome(k as nat, c as nat));
        while j < k
            invariant
                j <= k,
                outcome(k as nat, c as nat) == r@ + outcome((k - j) as nat, cur as nat),
            decreases k - j,
        {
            let x = (cur % 6 + 1) as u8;
            let ghost rest = outcome((k - j - 1) as nat, (cur / 6) as nat);
            assert(outcome((k - j) as nat, cur as nat) == seq![x] + rest);
            assert(r@ + (seq![x] + rest) == r@.push(x) + rest);
            r.push(x);
            cur = cur / 6;
            j = j + 1;
        }
        assert(r@ + outcome(0, cur as nat) == r@);
        r
    }

    /// For the hand at position `t` and reroll mask `mask` (bit `i` set: die
    /// `i` of the ordered expansion is rolled again), how many of the `6^k`
    /// equally likely rolls of the `k` rerolled dice give each hand. Divided
    /// by `6^k` these are the transition probabilities, and they sum to one.
    pub fn reroll_counts(&self, t: usize, mask: u8) -> (r: Vec<u32>)
        requires
            self.wf(),
            t < self@.len(),
        ensures
            r@.len() == self@.len(),
            forall|j: int|
                0 <= j < r@.len() ==> #[trigger] r@[j] == reroll_hits(
                    ordered_dice(self@[t as int]),
                    mask as nat,
                    low_bits_set(mask as nat, N as nat),
                    six_pow(low_bits_set(mask as nat, N as nat)),
                    self@[j],
                ),
            seq_sum(r@) == six_pow(low_bits_set(mask as nat, N as nat)),
    {
        let base = self.hand_of(t);
        let ghost o = ordered_dice(self@[t as int]);
        let k = count_low_bits(mask, N);
        let mut limit: usize = 1;
        let mut j: usize = 0;
        proof {
            lemma_six_pow_six();
            lemma_six_pow_monotonic(k as nat, 6);
        }
        while j < k
            invariant
                j <= k <= 6,
                limit == six_pow(j as nat),
                six_pow(k as nat) <= 46656,
            decreases k - j,
        {
            proof {
                lemma_six_pow_monotonic((j + 1) as nat, k as nat);
            }
            limit = limit * 6;
            j = j + 1;
        }
        let mut r: Vec<u32> = Vec::new();
        while r.len() < self.hands.len()
            invariant
                r@.len() <= self@.len(),
                self@.len() == self.hands@.len(),
                forall|i: int| 0 <= i < r@.len() ==> r@[i] == 0,
            decreases self@.len() - r@.len(),
        {
            r.push(0);
        }
        proof {
            lemma_seq_sum_zeros(r@);
        }
        let mut c: usize = 0;
        while c < limit
            invariant
                self.wf(),
                t < self@.len(),
                base.dice@ == self@[t as int],
                is_hand(N as int, base.dice@),
                base.valid(),
                o == ordered_dice(self@[t as int]),
                k == low_bits_set(mask as nat, N as nat),
                limit == six_pow(k as nat) <= 46656,
                c <= limit,
                r@.len() == self@.len(),
                forall|i: int| 0 <= i < r@.len() ==> #[trigger] r@[i] == reroll_hits(o, mask as nat, k as nat, c as nat, self@[i]),
                forall|i: int| 0 <= i < r@.len() ==> #[trigger] r@[i] <= c,
                seq_sum(r@) == c,
            decreases limit - c,
        {
            let fresh = Self::roll_of(k, c);
            proof {
                lemma_outcome_faces(k as nat, c as nat);
            }
            let nh = base.overwrite_reroll_dyn::<N>(mask, fresh.as_slice());
            let ti = self.index_of(&nh);
            let ghost old_r = r@;
            let ghost rolled = reroll_seq(o, mask as nat, outcome(k as nat, c as nat));
            let v = r[ti];
            r.set(ti, v + 1);
            proof {
                lemma_seq_sum_update(old_r, ti as int, (v + 1) as u32);
                assert forall|i: int| 0 <= i < r@.len() implies #[trigger] r@[i] == reroll_hits(
                    o,
                    mask as nat,
                    k as nat,
                    (c + 1) as nat,
                    self@[i],
                ) by {
                    if i == ti {
                        assert(counts_match(self@[i], rolled));
                    } else {
                        if counts_match(self@[i], rolled) {
                            lemma_counts_match_unique(self@[i], nh.dice@, rolled);
                            lemma_sorted_unique(self@, i, ti as int);
                        }
                        assert(r@[i] == old_r[i]);
                    }
                }
            }
            c = c + 1;
        }
        r
    }

    /// For each hand, in how many of the `6^N` equally likely ordered rolls of
    /// `N` dice it shows: the numerator of its probability, `N!` over the
    /// product of the factorials of its counts.
    pub fn numerators(&self) -> (r: Vec<u32>)
        requires
            self.wf(),
        ensures
            r@.len() == self@.len(),
            forall|j: int| 0 <= j < r@.len() ==> #[trigger] r@[j] == roll_hits(N as nat, six_pow(N as nat), self@[j]),
            seq_sum(r@) == six_pow(N as nat),
    {
        let full: u8 = if N == 5 {
            31
        } else {
            63
        };
        proof {
            reveal_with_fuel(two_pow, 7);
            assert(full == two_pow(N as nat) - 1);
            let one_face = seq![N as usize, 0usize, 0usize, 0usize, 0usize, 0usize];
            assert(is_hand(N as int, one_face));
            assert(self@.len() > 0);
            assert(is_hand(N as int, self@[0]));
            lemma_ordered_dice_counts(self@[0]);
            assert forall|j: int| 0 <= j < self@.len() implies reroll_hits(
                ordered_dice(self@[0]),
                full as nat,
                N as nat,
                six_pow(N as nat),
                #[trigger] self@[j],
            ) == roll_hits(N as nat, six_pow(N as nat), self@[j]) by {
                lemma_full_reroll_hits(ordered_dice(self@[0]), N as nat, six_pow(N as nat), self@[j]);
            }
            lemma_reroll_all(ordered_dice(self@[0]), ordered_dice(self@[0]));
        }
        self.reroll_counts(0, full)
    }

    /// The numerator of the probability of the hand at position `idx`.
    pub fn probability_numerator(&self, idx: usize) -> (r: u32)
        requires
            self.wf(),
            idx < self@.len(),
        ensures
            r == roll_hits(N as nat, six_pow(N as nat), self@[idx as int]),
    {
        let all = self.numerators();
        all[idx]
    }

    /// The common denominator of the hand probabilities, `6^N`.
    pub fn divisor(&self) -> (r: u32)
        requires
            self.wf(),
        ensures
            r == six_pow(N as nat),
    {
        proof {
            reveal_with_fuel(six_pow, 7);
        }
        if N == 5 {
            7776
        } else {
            46656
        }
    }
}

} // verus!
