use vstd::prelude::*;

verus! {

/// `2^n`.
pub open spec fn two_pow(n: nat) -> nat
    decreases n,
{
    if n == 0 {
        1
    } else {
        2 * two_pow((n - 1) as nat)
    }
}

/// The number that a sequence of flags spells in binary, the first flag being
/// the least significant bit.
pub open spec fn bits_value(bits: Seq<bool>) -> nat
    decreases bits.len(),
{
    if bits.len() == 0 {
        0
    } else {
        bits_value(bits.drop_last()) + if bits.last() {
            two_pow((bits.len() - 1) as nat)
        } else {
            0
        }
    }
}

/// How many of the flags are set.
pub open spec fn count_set(bits: Seq<bool>) -> nat
    decreases bits.len(),
{
    if bits.len() == 0 {
        0
    } else {
        count_set(bits.drop_last()) + if bits.last() {
            1nat
        } else {
            0
        }
    }
}

pub proof fn lemma_two_pow_monotonic(a: nat, b: nat)
    requires
        a <= b,
    ensures
        two_pow(a) <= two_pow(b),
        two_pow(a) >= 1,
    decreases b,
{
    if b > a {
        lemma_two_pow_monotonic(a, (b - 1) as nat);
    } else if a > 0 {
        lemma_two_pow_monotonic((a - 1) as nat, (a - 1) as nat);
    }
}

pub proof fn lemma_bits_value_bound(bits: Seq<bool>)
    ensures
        bits_value(bits) < two_pow(bits.len()),
    decreases bits.len(),
{
    if bits.len() > 0 {
        lemma_bits_value_bound(bits.drop_last());
    }
}

pub proof fn lemma_count_set_bound(bits: Seq<bool>)
    ensures
        count_set(bits) <= bits.len(),
    decreases bits.len(),
{
    if bits.len() > 0 {
        lemma_count_set_bound(bits.drop_last());
    }
}

/// Two flag sequences of one length that spell the same number are equal.
pub proof fn lemma_bits_value_injective(a: Seq<bool>, b: Seq<bool>)
    requires
        a.len() == b.len(),
        bits_value(a) == bits_value(b),
    ensures
        a == b,
    decreases a.len(),
{
    if a.len() > 0 {
        lemma_bits_value_bound(a.drop_last());
        lemma_bits_value_bound(b.drop_last());
        lemma_bits_value_injective(a.drop_last(), b.drop_last());
        assert(a == a.drop_last().push(a.last()));
        assert(b == b.drop_last().push(b.last()));
    }
}

/// The lowest `len` bits of `v`, bit 0 first.
pub fn bits_of(v: usize, len: usize) -> (r: Vec<bool>)
    requires
        v < two_pow(len as nat),
    ensures
        r@.len() == len,
        bits_value(r@) == v,
{
    let mut r: Vec<bool> = Vec::new();
    let mut cur: usize = v;
    let mut j: usize = 0;
    assert(bits_value(r@) == 0 && two_pow(0) == 1);
    while j < len
        invariant
            j <= len,
            r@.len() == j,
            v == bits_value(r@) + two_pow(j as nat) * cur,
            v < two_pow(len as nat),
        decreases len - j,
    {
        let bit = cur % 2 == 1;
        let ghost p = two_pow(j as nat);
        assert(r@.push(bit).drop_last() == r@);
        r.push(bit);
        assert(p * cur == p * (cur % 2) + (2 * p) * (cur / 2)) by (nonlinear_arith)
            requires
                cur == 2 * (cur / 2) + cur % 2,
        ;
        cur = cur / 2;
        j = j + 1;
    }
    proof {
        lemma_bits_value_bound(r@);
        if cur > 0 {
            assert(two_pow(len as nat) * cur >= two_pow(len as nat)) by (nonlinear_arith)
                requires
                    cur >= 1,
            ;
        }
    }
    r
}

/// Reads the flags as a binary number, the first flag being bit 0.
pub fn parse_binary(bits: &[bool]) -> (r: usize)
    requires
        two_pow(bits@.len()) <= usize::MAX + 1,
    ensures
        r == bits_value(bits@),
{
    let mut x: usize = 0;
    let mut place: usize = 1;
    let mut i: usize = 0;
    while i < bits.len()
        invariant
            i <= bits@.len(),
            two_pow(bits@.len()) <= usize::MAX + 1,
            i < bits@.len() ==> place == two_pow(i as nat),
            x == bits_value(bits@.subrange(0, i as int)),
        decreases bits@.len() - i,
    {
        proof {
            lemma_bits_value_bound(bits@.subrange(0, i as int));
            lemma_two_pow_monotonic((i + 1) as nat, bits@.len());
            assert(bits@.subrange(0, i + 1).drop_last() == bits@.subrange(0, i as int));
        }
        if bits[i] {
            x = x + place;
        }
        if i + 1 < bits.len() {
            proof {
                lemma_two_pow_monotonic((i + 1) as nat, (bits@.len() - 1) as nat);
            }
            place = place * 2;
        } else {
            place = 0;
        }
        i = i + 1;
    }
    assert(bits@.subrange(0, bits@.len() as int) == bits@);
    x
}

/// Counts the flags that are set, in a slice.
pub fn count_flags(bits: &[bool]) -> (r: usize)
    ensures
        r == count_set(bits@),
{
    let mut n: usize = 0;
    let mut i: usize = 0;
    while i < bits.len()
        invariant
            i <= bits@.len(),
            n == count_set(bits@.subrange(0, i as int)),
        decreases bits@.len() - i,
    {
        proof {
            lemma_count_set_bound(bits@.subrange(0, i as int));
            assert(bits@.subrange(0, i + 1).drop_last() == bits@.subrange(0, i as int));
        }
        if bits[i] {
            n = n + 1;
        }
        i = i + 1;
    }
    assert(bits@.subrange(0, bits@.len() as int) == bits@);
    n
}

/// Counts the flags that are set.
pub fn count_true<const N: usize>(bits: [bool; N]) -> (r: usize)
    ensures
        r == count_set(bits@),
{
    let mut n: usize = 0;
    let mut i: usize = 0;
    while i < N
        invariant
            i <= N,
            bits@.len() == N,
            n == count_set(bits@.subrange(0, i as int)),
        decreases N - i,
    {
        proof {
            lemma_count_set_bound(bits@.subrange(0, i as int));
            assert(bits@.subrange(0, i + 1).drop_last() == bits@.subrange(0, i as int));
        }
        if bits[i] {
            n = n + 1;
        }
        i = i + 1;
    }
    assert(bits@.subrange(0, N as int) == bits@);
    n
}

} // verus!
