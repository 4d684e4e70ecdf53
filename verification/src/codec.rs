//! Numbers as runs of bits, least significant first, and back.

use vstd::arithmetic::div_mod::{lemma_mod_breakdown, lemma_small_mod};
use vstd::arithmetic::power2::{lemma_pow2_pos, lemma_pow2_unfold, pow2};
use vstd::bits::lemma_u64_shr_is_div;
use vstd::prelude::*;

verus! {

/// The number that a run of bits spells when the first bit is the least
/// significant one.
pub open spec fn le_value(bits: Seq<bool>) -> nat
    decreases bits.len(),
{
    if bits.len() == 0 {
        0
    } else {
        le_value(bits.drop_last()) + if bits.last() {
            pow2((bits.len() - 1) as nat)
        } else {
            0
        }
    }
}

/// Whether bit `i` of `v` is set, bit 0 being the least significant.
pub open spec fn bit_at(v: nat, i: nat) -> bool {
    (v / pow2(i)) % 2 == 1
}

/// The lowest `len` bits of `v`, least significant first.
pub open spec fn value_bits(v: nat, len: nat) -> Seq<bool> {
    Seq::new(len, |i: int| bit_at(v, i as nat))
}

/// A run of `n` bits spells a number below `2^n`.
pub proof fn lemma_le_value_bound(bits: Seq<bool>)
    ensures
        le_value(bits) < pow2(bits.len()),
    decreases bits.len(),
{
    if bits.len() == 0 {
        lemma_pow2_pos(0);
    } else {
        lemma_le_value_bound(bits.drop_last());
        lemma_pow2_unfold(bits.len());
    }
}

/// Spelling the lowest `len` bits of `v` and reading them back gives `v`
/// reduced modulo `2^len`.
pub proof fn lemma_encode_decode(v: nat, len: nat)
    ensures
        le_value(value_bits(v, len)) == v % pow2(len),
    decreases len,
{
    if len == 0 {
        lemma_pow2_pos(0);
        assert(pow2(0) == 1) by {
            vstd::arithmetic::power2::lemma2_to64();
        }
    } else {
        let n = (len - 1) as nat;
        lemma_encode_decode(v, n);
        assert(value_bits(v, len).drop_last() =~= value_bits(v, n));
        lemma_pow2_pos(n);
        lemma_pow2_unfold(len);
        lemma_mod_breakdown(v as int, pow2(n) as int, 2);
        assert(pow2(len) == pow2(n) * 2) by (nonlinear_arith)
            requires
                pow2(len) == 2 * pow2(n),
        ;
        let top = (v as int / pow2(n) as int) % 2;
        assert(v as int % (pow2(n) as int * 2) == pow2(n) * top + v as int % pow2(n) as int);
        assert(top == 0 || top == 1);
        assert(pow2(n) * top == if top == 1 { pow2(n) as int } else { 0 }) by (nonlinear_arith)
            requires
                top == 0 || top == 1,
        ;
    }
}

/// Reading a run of bits as a number and spelling that number again gives
/// the same run.
pub proof fn lemma_decode_encode(bits: Seq<bool>)
    ensures
        value_bits(le_value(bits), bits.len()) == bits,
{
    let v = le_value(bits);
    lemma_le_value_bound(bits);
    lemma_encode_decode(v, bits.len());
    lemma_small_mod(v, pow2(bits.len()));
    lemma_le_value_injective(value_bits(v, bits.len()), bits);
}

/// Two runs of equal length that spell the same number are the same run.
pub proof fn lemma_le_value_injective(a: Seq<bool>, b: Seq<bool>)
    requires
        a.len() == b.len(),
        le_value(a) == le_value(b),
    ensures
        a == b,
    decreases a.len(),
{
    if a.len() == 0 {
        assert(a =~= b);
    } else {
        let n = (a.len() - 1) as nat;
        lemma_le_value_bound(a.drop_last());
        lemma_le_value_bound(b.drop_last());
        lemma_pow2_pos(n);
        assert(a.last() == b.last());
        lemma_le_value_injective(a.drop_last(), b.drop_last());
        assert(a =~= a.drop_last().push(a.last()));
        assert(b =~= b.drop_last().push(b.last()));
    }
}

/// Where the bits that come out of a register during an access are the
/// bits that went into it before, the access reads the value that was
/// written, as far as it fits into `len` bits.
pub proof fn lemma_round_trip(written: nat, len: nat, read: nat)
    requires
        read < pow2(len),
        value_bits(read, len) == value_bits(written, len),
    ensures
        read == written % pow2(len),
{
    lemma_encode_decode(read, len);
    lemma_encode_decode(written, len);
    lemma_small_mod(read, pow2(len));
}

/// Two numbers below `2^len` with the same lowest `len` bits are the same
/// number.
pub proof fn lemma_value_bits_unique(a: nat, b: nat, len: nat)
    requires
        a < pow2(len),
        b < pow2(len),
        value_bits(a, len) == value_bits(b, len),
    ensures
        a == b,
{
    lemma_round_trip(a, len, b);
    lemma_small_mod(a, pow2(len));
}

/// Spells the lowest `len` bits of `value`, least significant first.
pub fn bits_of_value(value: u64, len: usize) -> (bits: Vec<bool>)
    requires
        len <= 64,
    ensures
        bits@ == value_bits(value as nat, len as nat),
{
    let mut bits: Vec<bool> = Vec::new();
    let mut i: usize = 0;
    while i < len
        invariant
            i <= len <= 64,
            bits@ == value_bits(value as nat, i as nat),
        decreases len - i,
    {
        let low: u64 = (value >> i) & 1;
        proof {
            let shifted: u64 = value >> (i as u64);
            lemma_u64_shr_is_div(value, i as u64);
            assert(shifted & 1 == shifted % 2) by (bit_vector);
            assert((low == 1) == bit_at(value as nat, i as nat));
            assert(bits@.push(low == 1) =~= value_bits(value as nat, (i + 1) as nat));
        }
        bits.push(low == 1);
        i += 1;
    }
    bits
}

} // verus!
