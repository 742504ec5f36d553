use vstd::prelude::*;
use vstd::arithmetic::power2::{pow2, lemma_pow2_unfold, lemma_pow2_strictly_increases, lemma2_to64};
use vstd::arithmetic::div_mod::{lemma_fundamental_div_mod, lemma_fundamental_div_mod_converse};

verus! {

/// The big-endian value of a bit sequence: the first bit is the most
/// significant.
pub open spec fn bits_val(s: Seq<bool>) -> nat
    decreases s.len(),
{
    if s.len() == 0 {
        0
    } else {
        2 * bits_val(s.drop_last()) + (if s.last() {
            1nat
        } else {
            0nat
        })
    }
}

/// The low `w` bits of `v`, most significant first.
pub open spec fn val_bits(v: nat, w: nat) -> Seq<bool>
    decreases w,
{
    if w == 0 {
        Seq::empty()
    } else {
        val_bits(v / 2, (w - 1) as nat).push(v % 2 == 1)
    }
}

/// A byte sequence unpacked into bits, each byte most significant bit first.
pub open spec fn bytes_bits(s: Seq<u8>) -> Seq<bool>
    decreases s.len(),
{
    if s.len() == 0 {
        Seq::empty()
    } else {
        val_bits(s[0] as nat, 8) + bytes_bits(s.skip(1))
    }
}

/// A bit sequence packed into whole bytes; a trailing group of fewer than
/// eight bits is dropped.
pub open spec fn bits_bytes(s: Seq<bool>) -> Seq<u8>
    decreases s.len(),
{
    if s.len() < 8 {
        Seq::empty()
    } else {
        seq![bits_val(s.take(8)) as u8] + bits_bytes(s.skip(8))
    }
}

/// How many zero bits pad a stream of `n` bits to the next byte boundary.
pub open spec fn pad_len(n: nat) -> nat {
    if n % 8 == 0 {
        0
    } else {
        (8 - n % 8) as nat
    }
}

/// `n` cleared bits.
pub open spec fn zeros(n: nat) -> Seq<bool> {
    Seq::new(n, |i: int| false)
}

pub proof fn lemma_val_bits_len(v: nat, w: nat)
    ensures
        val_bits(v, w).len() == w,
    decreases w,
{
    if w > 0 {
        lemma_val_bits_len(v / 2, (w - 1) as nat);
    }
}

pub proof fn lemma_bits_val_bound(s: Seq<bool>)
    ensures
        bits_val(s) < pow2(s.len()),
    decreases s.len(),
{
    lemma_pow2_unfold(s.len() + 1);
    if s.len() == 0 {
        lemma2_to64();
    } else {
        lemma_pow2_unfold(s.len());
        lemma_bits_val_bound(s.drop_last());
    }
}

/// Unpacking the low `w` bits of `v` and reading them back gives `v mod 2^w`.
pub proof fn lemma_val_bits_val(v: nat, w: nat)
    ensures
        bits_val(val_bits(v, w)) == v % pow2(w),
    decreases w,
{
    if w == 0 {
        lemma2_to64();
        assert(v % 1 == 0) by (nonlinear_arith);
    } else {
        lemma_val_bits_val(v / 2, (w - 1) as nat);
        lemma_val_bits_len(v / 2, (w - 1) as nat);
        let t = val_bits(v / 2, (w - 1) as nat);
        let s = t.push(v % 2 == 1);
        assert(s.drop_last() =~= t);
        let p = pow2((w - 1) as nat);
        lemma_pow2_unfold(w);
        vstd::arithmetic::power2::lemma_pow2_pos((w - 1) as nat);
        // v == (2 * p) * ((v / 2) / p) + (2 * ((v / 2) % p) + v % 2)
        lemma_fundamental_div_mod(v as int, 2);
        lemma_fundamental_div_mod(v as int / 2, p as int);
        let q = (v as int / 2) / (p as int);
        let r: nat = 2 * ((v / 2) % p) + v % 2;
        assert(v as int == (2 * p) * q + r) by (nonlinear_arith)
            requires
                v as int == 2 * (v as int / 2) + (v as int % 2),
                v as int / 2 == (p as int) * q + ((v / 2) % p) as int,
                r == 2 * ((v / 2) % p) + v % 2,
        ;
        assert(0 <= r < 2 * p);
        lemma_fundamental_div_mod_converse(v as int, 2 * p as int, q, r as int);
    }
}

/// Packing the value of a bit sequence back at the same width reproduces
/// the sequence.
pub proof fn lemma_bits_val_bits(s: Seq<bool>)
    ensures
        val_bits(bits_val(s), s.len()) == s,
    decreases s.len(),
{
    if s.len() > 0 {
        let p = s.drop_last();
        lemma_bits_val_bits(p);
        let v = bits_val(s);
        let b: nat = if s.last() {
            1
        } else {
            0
        };
        assert(v == 2 * bits_val(p) + b);
        assert(v / 2 == bits_val(p) && v % 2 == b) by (nonlinear_arith)
            requires
                v == 2 * bits_val(p) + b,
                b < 2,
        ;
        assert(val_bits(v, s.len()) =~= s);
    }
}

pub proof fn lemma_bytes_bits_concat(a: Seq<u8>, b: Seq<u8>)
    ensures
        bytes_bits(a + b) == bytes_bits(a) + bytes_bits(b),
    decreases a.len(),
{
    if a.len() == 0 {
        assert(a + b =~= b);
        assert(bytes_bits(a) + bytes_bits(b) =~= bytes_bits(b));
    } else {
        assert((a + b).skip(1) =~= a.skip(1) + b);
        lemma_bytes_bits_concat(a.skip(1), b);
        assert(bytes_bits(a + b) =~= bytes_bits(a) + bytes_bits(b));
    }
}

pub proof fn lemma_bits_bytes_concat(a: Seq<bool>, b: Seq<bool>)
    requires
        a.len() % 8 == 0,
    ensures
        bits_bytes(a + b) == bits_bytes(a) + bits_bytes(b),
    decreases a.len(),
{
    if a.len() == 0 {
        assert(a + b =~= b);
        assert(bits_bytes(a) + bits_bytes(b) =~= bits_bytes(b));
    } else {
        assert((a + b).take(8) =~= a.take(8));
        assert((a + b).skip(8) =~= a.skip(8) + b);
        lemma_bits_bytes_concat(a.skip(8), b);
        assert(bits_bytes(a + b) =~= bits_bytes(a) + bits_bytes(b));
    }
}

/// Packing whole bytes' worth of bits and unpacking them again is the
/// identity.
pub proof fn lemma_bytes_bits_bits_bytes(s: Seq<bool>)
    requires
        s.len() % 8 == 0,
    ensures
        bytes_bits(bits_bytes(s)) == s,
    decreases s.len(),
{
    if s.len() >= 8 {
        let head = s.take(8);
        let tail = s.skip(8);
        lemma_bits_val_bound(head);
        lemma2_to64();
        lemma_bits_val_bits(head);
        lemma_bytes_bits_bits_bytes(tail);
        let v = bits_val(head) as u8;
        assert(bits_bytes(s) == seq![v] + bits_bytes(tail));
        assert((seq![v] + bits_bytes(tail))[0] == v);
        assert((seq![v] + bits_bytes(tail)).skip(1) =~= bits_bytes(tail));
        assert(bytes_bits(bits_bytes(s)) == val_bits(v as nat, 8) + tail);
        assert(val_bits(v as nat, 8) + tail =~= s);
    }
}

/// Exactly eight bits pack into one byte.
pub proof fn lemma_bits_bytes_single(t: Seq<bool>)
    requires
        t.len() == 8,
    ensures
        bits_bytes(t) == seq![bits_val(t) as u8],
{
    assert(t.take(8) =~= t);
    assert(t.skip(8).len() == 0);
    assert(bits_bytes(t.skip(8)) =~= Seq::<u8>::empty());
    assert(bits_bytes(t) =~= seq![bits_val(t) as u8]);
}

/// Padding bits read back as zero.
pub proof fn lemma_bits_val_zeros_take(n: nat, w: nat)
    requires
        w <= n,
    ensures
        bits_val(zeros(n).take(w as int)) == 0,
    decreases w,
{
    if w > 0 {
        assert(zeros(n).take(w as int).drop_last() =~= zeros(n).take(w as int - 1));
        lemma_bits_val_zeros_take(n, (w - 1) as nat);
    }
}

/// Append the low `w` bits of `v` to `buf`, most significant first.
pub fn push_low_bits(buf: &mut Vec<bool>, v: u16, w: usize)
    requires
        w <= 16,
    ensures
        final(buf)@ == old(buf)@ + val_bits(v as nat, w as nat),
    decreases w,
{
    if w == 0 {
        proof {
            assert(buf@ =~= buf@ + val_bits(v as nat, 0));
        }
    } else {
        push_low_bits(buf, v / 2, w - 1);
        buf.push(v % 2 == 1);
        proof {
            assert(buf@ =~= old(buf)@ + val_bits(v as nat, w as nat));
        }
    }
}

/// Append one byte to `buf` as eight bits, most significant first.
pub fn push_byte_bits(buf: &mut Vec<bool>, b: u8)
    ensures
        final(buf)@ == old(buf)@ + val_bits(b as nat, 8),
{
    push_low_bits(buf, b as u16, 8);
}

/// Read `w` bits starting at `start` as a big-endian value, without
/// consuming them.
pub fn peek_bits(buf: &Vec<bool>, start: usize, w: usize) -> (r: u16)
    requires
        w <= 16,
        start + w <= buf.len(),
    ensures
        r as nat == bits_val(buf@.subrange(start as int, start as int + w as int)),
{
    proof {
        lemma2_to64();
    }
    let mut r: u16 = 0;
    let mut i: usize = 0;
    while i < w
        invariant
            i <= w,
            w <= 16,
            start + w <= buf.len(),
            r as nat == bits_val(buf@.subrange(start as int, start as int + i as int)),
            (r as nat) < pow2(i as nat),
        decreases w - i,
    {
        proof {
            lemma2_to64();
            if i < 15 {
                lemma_pow2_strictly_increases(i as nat, 15);
            }
            assert(buf@.subrange(start as int, start as int + i as int + 1).drop_last() =~= buf@.subrange(
                start as int,
                start as int + i as int,
            ));
            lemma_pow2_unfold(i as nat + 1);
        }
        r = r * 2 + (if buf[start + i] {
            1
        } else {
            0
        });
        i = i + 1;
    }
    r
}

/// Remove the first `n` bits of `buf`.
pub fn drop_front(buf: &mut Vec<bool>, n: usize)
    requires
        n <= old(buf).len(),
    ensures
        final(buf)@ == old(buf)@.skip(n as int),
{
    let ghost orig = buf@;
    let mut rest: Vec<bool> = Vec::new();
    let mut j: usize = n;
    while j < buf.len()
        invariant
            n <= j <= buf@.len(),
            buf@ == orig,
            rest@ == orig.subrange(n as int, j as int),
        decreases buf@.len() - j,
    {
        let b = buf[j];
        rest.push(b);
        j = j + 1;
    }
    proof {
        assert(rest@ =~= orig.skip(n as int));
    }
    *buf = rest;
}

/// Consume the first `w` bits of `buf` as a big-endian value.
pub fn take_bits(buf: &mut Vec<bool>, w: usize) -> (r: u16)
    requires
        w <= 16,
        w <= old(buf).len(),
    ensures
        final(buf)@ == old(buf)@.skip(w as int),
        r as nat == bits_val(old(buf)@.take(w as int)),
{
    let r = peek_bits(buf, 0, w);
    proof {
        assert(buf@.subrange(0, w as int) =~= buf@.take(w as int));
    }
    drop_front(buf, w);
    r
}

} // verus!
