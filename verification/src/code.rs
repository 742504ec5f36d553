use vstd::prelude::*;
use vstd::arithmetic::power2::{pow2, lemma_pow2_unfold, lemma_pow2_strictly_increases};

verus! {

/// The minimum number of bits needed to represent `v`: 0 for 0, and
/// otherwise the position of the highest set bit plus one. This is the
/// single source of truth for code field widths on both codec sides.
pub open spec fn min_bits_nat(v: nat) -> nat
    decreases v,
{
    if v == 0 {
        0
    } else {
        1 + min_bits_nat(v / 2)
    }
}

/// `min_bits_nat(v)` is the least width `n` with `v < pow2(n)`.
pub proof fn lemma_min_bits_iff(v: nat, n: nat)
    ensures
        min_bits_nat(v) <= n <==> v < pow2(n),
    decreases n,
{
    lemma_pow2_unfold(n + 1);
    if n == 0 {
        assert(pow2(0) == 1) by {
            vstd::arithmetic::power2::lemma2_to64();
        }
    } else {
        lemma_pow2_unfold(n);
        lemma_min_bits_iff(v / 2, (n - 1) as nat);
    }
}

/// Bit widths never shrink as the value grows.
pub proof fn lemma_min_bits_monotonic(a: nat, b: nat)
    requires
        a <= b,
    ensures
        min_bits_nat(a) <= min_bits_nat(b),
{
    lemma_min_bits_iff(b, min_bits_nat(b));
    lemma_min_bits_iff(a, min_bits_nat(b));
}

/// The width grows by one exactly when the value reaches the next power of
/// two, and is otherwise unchanged.
pub proof fn lemma_min_bits_increases_at_powers(v: nat)
    ensures
        min_bits_nat(v + 1) == if v + 1 == pow2(min_bits_nat(v)) {
            min_bits_nat(v) + 1
        } else {
            min_bits_nat(v)
        },
{
    let m = min_bits_nat(v);
    lemma_min_bits_iff(v, m);
    if v + 1 == pow2(m) {
        lemma_min_bits_iff(v + 1, m);
        lemma_min_bits_iff(v + 1, m + 1);
        lemma_pow2_strictly_increases(m, m + 1);
    } else {
        assert(v + 1 < pow2(m));
        lemma_min_bits_iff(v + 1, m);
        if m > 0 {
            lemma_min_bits_iff(v, (m - 1) as nat);
            lemma_min_bits_iff(v + 1, (m - 1) as nat);
        }
    }
}

/// A 16-bit value never needs more than 16 bits.
pub proof fn lemma_min_bits_u16(v: nat)
    requires
        v < 0x10000,
    ensures
        min_bits_nat(v) <= 16,
{
    assert(pow2(16) == 0x10000) by {
        vstd::arithmetic::power2::lemma2_to64();
    }
    lemma_min_bits_iff(v, 16);
}

/// A bounded numeric dictionary identifier.
#[derive(Debug, Clone, Copy, PartialEq, Eq, Structural, Hash)]
pub struct Code(pub u16);

impl Code {
    /// The minimum number of bits needed to represent this code's value.
    pub fn min_bits(self) -> (r: usize)
        ensures
            r == min_bits_nat(self.0 as nat),
            r <= 16,
    {
        proof {
            lemma_min_bits_u16(self.0 as nat);
        }
        let mut value: u16 = self.0;
        let mut bits: usize = 0;
        while value > 0
            invariant
                bits + min_bits_nat(value as nat) == min_bits_nat(self.0 as nat),
                bits <= 16,
            decreases value,
        {
            proof {
                lemma_min_bits_u16(self.0 as nat);
            }
            value = value / 2;
            bits = bits + 1;
        }
        bits
    }
}

} // verus!
