//! Bit sequences: how they sit in bytes and which numbers they stand for.
use vstd::arithmetic::div_mod::*;
use vstd::arithmetic::power2::*;
use vstd::prelude::*;
use vstd::std_specs::bits::u64_leading_zeros;

verus! {

/// Bit `i` of a byte sequence, counting from the most significant bit of
/// the first byte.
pub open spec fn bit_at(bytes: Seq<u8>, i: int) -> bool {
    (bytes[i / 8] >> ((7 - i % 8) as u8)) & 1u8 == 1u8
}

/// `len` bits of `bytes`, starting at bit `from`.
pub open spec fn bits_of(bytes: Seq<u8>, from: int, len: int) -> Seq<bool> {
    Seq::new(len as nat, |k: int| bit_at(bytes, from + k))
}

/// The `n` low bits of `v`, most significant first.
pub open spec fn uint_bits(v: nat, n: nat) -> Seq<bool>
    decreases n,
{
    if n == 0 {
        seq![]
    } else {
        uint_bits(v / 2, (n - 1) as nat).push(v % 2 == 1)
    }
}

/// The unsigned number that a bit sequence spells, most significant first.
pub open spec fn uint_value(s: Seq<bool>) -> nat
    decreases s.len(),
{
    if s.len() == 0 {
        0
    } else {
        2 * uint_value(s.drop_last()) + if s.last() {
            1nat
        } else {
            0nat
        }
    }
}

/// The number of bits in the shortest binary representation of `d`
/// (zero for zero).
pub open spec fn bits_needed(d: nat) -> nat
    decreases d,
{
    if d == 0 {
        0
    } else {
        1 + bits_needed(d / 2)
    }
}

/// `byte` with bit `k` (counted from the most significant) set to `b`.
pub open spec fn with_bit(byte: u8, k: int, b: bool) -> u8 {
    if b {
        byte | (0x80u8 >> (k as u8))
    } else {
        byte & !(0x80u8 >> (k as u8))
    }
}

pub proof fn lemma_uint_bits_len(v: nat, n: nat)
    ensures
        uint_bits(v, n).len() == n,
    decreases n,
{
    if n > 0 {
        lemma_uint_bits_len(v / 2, (n - 1) as nat);
    }
}

pub proof fn lemma_uint_value_bound(s: Seq<bool>)
    ensures
        uint_value(s) < pow2(s.len()),
    decreases s.len(),
{
    if s.len() > 0 {
        lemma_uint_value_bound(s.drop_last());
        lemma_pow2_unfold(s.len());
    } else {
        lemma2_to64();
    }
}

/// Reading the `n` low bits of `v` back gives `v` modulo `2^n`.
pub proof fn lemma_uint_value_of_bits(v: nat, n: nat)
    ensures
        uint_value(uint_bits(v, n)) == v % pow2(n),
    decreases n,
{
    lemma2_to64();
    if n > 0 {
        let s = uint_bits(v, n);
        lemma_uint_value_of_bits(v / 2, (n - 1) as nat);
        assert(s.drop_last() =~= uint_bits(v / 2, (n - 1) as nat));
        lemma_pow2_unfold(n);
        lemma_pow2_pos((n - 1) as nat);
        lemma_mod_breakdown(v as int, 2, pow2((n - 1) as nat) as int);
    }
}

/// Every number up to `d` fits in `bits_needed(d)` bits.
pub proof fn lemma_bits_needed_bound(d: nat)
    ensures
        d < pow2(bits_needed(d)),
    decreases d,
{
    lemma2_to64();
    if d > 0 {
        lemma_bits_needed_bound(d / 2);
        lemma_pow2_unfold(bits_needed(d));
    }
}

/// Setting one bit of a byte keeps every other bit.
pub proof fn lemma_with_bit(byte: u8, j: u8, k: u8, b: bool)
    requires
        j < 8,
        k < 8,
    ensures
        ((with_bit(byte, k as int, b) >> (7 - j) as u8) & 1u8 == 1u8) == if j == k {
            b
        } else {
            (byte >> (7 - j) as u8) & 1u8 == 1u8
        },
{
    if b {
        assert(j < 8 && k < 8 ==> (((byte | (0x80u8 >> k)) >> (7 - j) as u8) & 1u8 == 1u8) == (
        j == k || (byte >> (7 - j) as u8) & 1u8 == 1u8)) by (bit_vector);
    } else {
        assert(j < 8 && k < 8 ==> (((byte & !(0x80u8 >> k)) >> (7 - j) as u8) & 1u8 == 1u8)
            == (j != k && (byte >> (7 - j) as u8) & 1u8 == 1u8)) by (bit_vector);
    }
}

/// `after` is `before` with the bits from bit `off` on replaced by `s`.
pub open spec fn spliced(before: Seq<u8>, after: Seq<u8>, off: int, s: Seq<bool>) -> bool {
    &&& after.len() == before.len()
    &&& forall|p: int|
        0 <= p < before.len() * 8 ==> #[trigger] bit_at(after, p) == if off <= p < off + s.len() {
            s[p - off]
        } else {
            bit_at(before, p)
        }
}

/// `leading_zeros` counts the bits that `bits_needed` leaves out of 64.
pub proof fn lemma_leading_zeros(d: u64)
    ensures
        u64_leading_zeros(d) == 64 - bits_needed(d as nat),
        bits_needed(d as nat) <= 64,
    decreases d,
{
    reveal(u64_leading_zeros);
    if d > 0 {
        lemma_leading_zeros(d / 2);
    }
}

/// A number below `2^k` needs at most `k` bits.
pub proof fn lemma_bits_needed_le(d: nat, k: nat)
    requires
        d < pow2(k),
    ensures
        bits_needed(d) <= k,
    decreases k,
{
    lemma2_to64();
    if d > 0 {
        if k == 0 {
            assert(false);
        } else {
            lemma_pow2_unfold(k);
            lemma_bits_needed_le(d / 2, (k - 1) as nat);
        }
    }
}

} // verus!
