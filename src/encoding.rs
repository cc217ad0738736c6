//! What each UPER primitive puts on the wire, as bit sequences, and how a
//! bit sequence is decoded back.
use crate::bits::{
    bits_needed, bits_of, lemma_leading_zeros, lemma_uint_bits_len, lemma_uint_value_bound,
    uint_bits, uint_value,
};
use vstd::arithmetic::power2::lemma2_to64;
use vstd::arithmetic::power2::pow2;
use crate::Error;
use vstd::prelude::*;
use vstd::utf8::valid_utf8;

verus! {

/// Largest length that the one-octet length determinant carries.
pub const LENGTH_SHORT_MAX: usize = 127;

/// Largest length that the two-octet length determinant carries.
pub const LENGTH_LONG_MAX: usize = 16383;

/// Largest value that a normally-small integer carries inline.
pub const NORMALLY_SMALL_INLINE_MAX: u64 = 63;

/// Number of bits that a constrained integer over `lower..=upper` takes.
pub open spec fn range_width(lower: i64, upper: i64) -> nat {
    if lower <= upper {
        bits_needed((upper - lower) as nat)
    } else {
        0
    }
}

/// A constrained integer: its offset from `lower` in `range_width` bits.
pub open spec fn encode_int(value: i64, lower: i64, upper: i64) -> Seq<bool> {
    uint_bits((value - lower) as nat, range_width(lower, upper))
}

/// Decodes a constrained integer at the start of `s`: the value and the
/// number of bits it took, or `None` when `s` is too short or the offset
/// lies beyond the range.
pub open spec fn decode_int(s: Seq<bool>, lower: i64, upper: i64) -> Option<(int, nat)> {
    let w = range_width(lower, upper);
    if s.len() < w {
        None
    } else if uint_value(s.take(w as int)) > upper - lower {
        None
    } else {
        Some((lower + uint_value(s.take(w as int)), w))
    }
}

/// A length determinant: `0` and seven bits up to 127, `1 0` and fourteen
/// bits up to 16383.
pub open spec fn encode_length(length: nat) -> Seq<bool> {
    if length <= LENGTH_SHORT_MAX {
        seq![false] + uint_bits(length, 7)
    } else {
        seq![true, false] + uint_bits(length, 14)
    }
}

/// Whether `s` starts with the header `1 1` of a length form that this codec
/// does not support.
pub open spec fn length_unsupported(s: Seq<bool>) -> bool {
    s.len() >= 2 && s[0] && s[1]
}

/// Decodes a length determinant at the start of `s`.
pub open spec fn decode_length(s: Seq<bool>) -> Option<(nat, nat)> {
    if s.len() >= 8 && !s[0] {
        Some((uint_value(s.subrange(1, 8)), 8))
    } else if s.len() >= 16 && s[0] && !s[1] {
        Some((uint_value(s.subrange(2, 16)), 16))
    } else {
        None
    }
}

/// Octets in the shortest big-endian form of `v` (at least one).
pub open spec fn unsigned_octets(v: nat) -> nat {
    if bits_needed(v) == 0 {
        1
    } else {
        (bits_needed(v) + 7) / 8
    }
}

/// The bits that a signed value needs besides its sign: those of `v` when
/// it is non-negative, those of `-v - 1` when it is negative.
pub open spec fn magnitude(v: i64) -> nat {
    if v >= 0 {
        v as nat
    } else {
        (-v - 1) as nat
    }
}

/// Octets in the shortest two's-complement form of `v` whose leading bit
/// is the sign of `v`.
pub open spec fn signed_octets(v: i64) -> nat {
    bits_needed(magnitude(v)) / 8 + 1
}

/// `v` as a 64-bit two's-complement pattern.
pub open spec fn twos_complement(v: i64) -> nat {
    if v >= 0 {
        v as nat
    } else {
        (v + 0x1_0000_0000_0000_0000) as nat
    }
}

/// An unconstrained unsigned integer: its octet count as a length
/// determinant, then those octets.
pub open spec fn encode_max_unsigned(v: u64) -> Seq<bool> {
    encode_length(unsigned_octets(v as nat)) + uint_bits(v as nat, 8 * unsigned_octets(v as nat))
}

/// An unconstrained signed integer: its octet count as a length
/// determinant, then the low octets of its two's-complement form.
pub open spec fn encode_max_signed(v: i64) -> Seq<bool> {
    encode_length(signed_octets(v)) + uint_bits(twos_complement(v), 8 * signed_octets(v))
}

/// Reads a length determinant and then that many octets (at most eight) as
/// an unsigned number: the number and the bits taken.
pub open spec fn decode_octets(s: Seq<bool>) -> Option<(nat, nat, nat)> {
    match decode_length(s) {
        Some((l, k)) => if l > 8 || s.len() < k + 8 * l {
            None
        } else {
            Some((uint_value(s.subrange(k as int, (k + 8 * l) as int)), l, k + 8 * l))
        },
        None => None,
    }
}

/// Whether `s` starts with a length that octet-framed integers do not
/// support: a length header `1 1`, or more than eight octets.
pub open spec fn octets_unsupported(s: Seq<bool>) -> bool {
    length_unsupported(s) || (decode_length(s) matches Some((l, _)) && l > 8)
}

pub open spec fn decode_max_unsigned(s: Seq<bool>) -> Option<(nat, nat)> {
    match decode_octets(s) {
        Some((raw, _l, n)) => Some((raw, n)),
        None => None,
    }
}

/// The value of `l` octets `raw` read as two's complement.
pub open spec fn signed_value(raw: nat, l: nat) -> int {
    if l > 0 && raw >= pow2((8 * l - 1) as nat) {
        raw - pow2(8 * l)
    } else {
        raw as int
    }
}

pub open spec fn decode_max_signed(s: Seq<bool>) -> Option<(int, nat)> {
    match decode_octets(s) {
        Some((raw, l, n)) => Some((signed_value(raw, l), n)),
        None => None,
    }
}

/// A normally-small integer: `0` and six bits up to 63, else `1` and the
/// value as an unconstrained unsigned integer.
pub open spec fn encode_normally_small(v: u64) -> Seq<bool> {
    if v <= NORMALLY_SMALL_INLINE_MAX {
        seq![false] + uint_bits(v as nat, 6)
    } else {
        seq![true] + encode_max_unsigned(v)
    }
}

/// Whether `s` starts with a normally-small integer whose octet form this
/// codec does not support.
pub open spec fn normally_small_unsupported(s: Seq<bool>) -> bool {
    s.len() >= 1 && s[0] && octets_unsupported(s.skip(1))
}

pub open spec fn decode_normally_small(s: Seq<bool>) -> Option<(nat, nat)> {
    if s.len() >= 7 && !s[0] {
        Some((uint_value(s.subrange(1, 7)), 7))
    } else if s.len() >= 1 && s[0] {
        match decode_max_unsigned(s.skip(1)) {
            Some((v, n)) => Some((v, n + 1)),
            None => None,
        }
    } else {
        None
    }
}

/// A choice index among `variants` alternatives: a constrained integer over
/// `0..=variants - 1`.
pub open spec fn encode_choice_index(index: u64, variants: u64) -> Seq<bool> {
    uint_bits(index as nat, bits_needed((variants - 1) as nat))
}

pub open spec fn decode_choice_index(s: Seq<bool>, variants: u64) -> Option<(nat, nat)> {
    let w = bits_needed((variants - 1) as nat);
    if s.len() < w || uint_value(s.take(w as int)) >= variants {
        None
    } else {
        Some((uint_value(s.take(w as int)), w))
    }
}

/// An index of an extensible choice: `0` and the plain choice index for a
/// known alternative, else `1` and `index - variants` as a normally-small
/// integer.
pub open spec fn encode_choice_index_extensible(index: u64, variants: u64) -> Seq<bool> {
    if index < variants {
        seq![false] + encode_choice_index(index, variants)
    } else {
        seq![true] + encode_normally_small((index - variants) as u64)
    }
}

/// The error that reading an extensible choice index from `s` gives.
pub open spec fn choice_index_extensible_error(s: Seq<bool>, variants: u64, e: Error) -> bool {
    if s.len() == 0 {
        e == Error::EndOfStream
    } else if !s[0] {
        if s.len() - 1 < bits_needed((variants - 1) as nat) {
            e == Error::EndOfStream
        } else {
            e is ValueNotInRange
        }
    } else if decode_normally_small(s.skip(1)) is Some {
        e == Error::ValueExceedsMaxInt
    } else if normally_small_unsupported(s.skip(1)) {
        e is UnsupportedOperation
    } else {
        e == Error::EndOfStream
    }
}

pub open spec fn decode_choice_index_extensible(s: Seq<bool>, variants: u64) -> Option<(nat, nat)> {
    if s.len() >= 1 && !s[0] {
        match decode_choice_index(s.skip(1), variants) {
            Some((v, n)) => Some((v, n + 1)),
            None => None,
        }
    } else if s.len() >= 1 && s[0] {
        match decode_normally_small(s.skip(1)) {
            Some((v, n)) => if v + variants <= u64::MAX {
                Some(((v + variants) as nat, n + 1))
            } else {
                None
            },
            None => None,
        }
    } else {
        None
    }
}

pub proof fn lemma_encode_length_len(length: nat)
    ensures
        encode_length(length).len() == if length <= LENGTH_SHORT_MAX {
            8int
        } else {
            16int
        },
{
    lemma_uint_bits_len(length, 7);
    lemma_uint_bits_len(length, 14);
}

/// A decoded length never exceeds the long form's maximum.
pub proof fn lemma_decode_length_bound(s: Seq<bool>)
    ensures
        decode_length(s) matches Some((v, n)) ==> v <= LENGTH_LONG_MAX && n <= s.len(),
{
    lemma2_to64();
    if s.len() >= 8 {
        lemma_uint_value_bound(s.subrange(1, 8));
    }
    if s.len() >= 16 {
        lemma_uint_value_bound(s.subrange(2, 16));
    }
}

pub proof fn lemma_max_unsigned_len(v: u64)
    ensures
        encode_max_unsigned(v).len() <= 80,
{
    lemma_uint_bits_len(v as nat, 8 * unsigned_octets(v as nat));
    lemma_encode_length_len(unsigned_octets(v as nat));
    lemma_leading_zeros(v);
}

pub proof fn lemma_normally_small_len(v: u64)
    ensures
        encode_normally_small(v).len() <= 81,
{
    lemma_uint_bits_len(v as nat, 6);
    lemma_max_unsigned_len(v);
}

/// The length prefix of an octet string: a constrained integer over the
/// size range where there is one, else a length determinant.
pub open spec fn octet_length_prefix(length: nat, range: Option<(i64, i64)>) -> Seq<bool> {
    match range {
        Some((lower, upper)) => encode_int(length as i64, lower, upper),
        None => encode_length(length),
    }
}

/// Whether an octet string of `length` bytes can be written under `range`.
pub open spec fn octet_length_fits(length: nat, range: Option<(i64, i64)>) -> bool {
    match range {
        Some((lower, upper)) => lower <= length <= upper,
        None => length <= LENGTH_LONG_MAX,
    }
}

/// An octet string: its length prefix, then its bytes.
pub open spec fn encode_octet_string(bytes: Seq<u8>, range: Option<(i64, i64)>) -> Seq<bool> {
    octet_length_prefix(bytes.len(), range) + bits_of(bytes, 0, 8 * bytes.len() as int)
}

pub open spec fn decode_octet_length(s: Seq<bool>, range: Option<(i64, i64)>) -> Option<
    (nat, nat),
> {
    match range {
        Some((lower, upper)) => match decode_int(s, lower, upper) {
            Some((v, n)) => if v >= 0 {
                Some((v as nat, n))
            } else {
                None
            },
            None => None,
        },
        None => decode_length(s),
    }
}

/// The error that reading a length-prefixed block from `s` gives: under a
/// size range, `ValueNotInRange` where the prefix is there but names no size
/// of the range; with a length determinant, `UnsupportedOperation` for the
/// header `1 1`; `EndOfStream` otherwise.
pub open spec fn octet_length_error(s: Seq<bool>, range: Option<(i64, i64)>, e: Error) -> bool {
    match range {
        Some((lower, upper)) => if s.len() >= range_width(lower, upper) && decode_octet_length(
            s,
            range,
        ) is None {
            e is ValueNotInRange
        } else {
            e == Error::EndOfStream
        },
        None => if length_unsupported(s) {
            e is UnsupportedOperation
        } else {
            e == Error::EndOfStream
        },
    }
}

/// Decodes an octet string: its length in bytes and the bits it takes; its
/// bytes are the last `8 * length` of those bits.
pub open spec fn decode_octet_string(s: Seq<bool>, range: Option<(i64, i64)>) -> Option<
    (nat, nat),
> {
    match decode_octet_length(s, range) {
        Some((l, k)) => if s.len() >= k + 8 * l {
            Some((l, k + 8 * l))
        } else {
            None
        },
        None => None,
    }
}

/// Whether the block of `l` bytes that ends at bit `n` of `s` is valid
/// UTF-8.
pub open spec fn block_is_utf8(s: Seq<bool>, l: nat, n: nat) -> bool {
    exists|b: Seq<u8>|
        b.len() == l && #[trigger] bits_of(b, 0, 8 * l as int) == s.subrange(n - 8 * l, n as int)
            && valid_utf8(b)
}

/// A bit string of `length` bits: its length as a length determinant, then
/// the bits.
pub open spec fn encode_bitstring(bits: Seq<bool>) -> Seq<bool> {
    encode_length(bits.len()) + bits
}

/// Decodes a bit string: its length in bits and the bits it takes.
pub open spec fn decode_bitstring(s: Seq<bool>) -> Option<(nat, nat)> {
    match decode_length(s) {
        Some((l, k)) => if s.len() >= k + l {
            Some((l, k + l))
        } else {
            None
        },
        None => None,
    }
}

pub proof fn lemma_range_width_bound(lower: i64, upper: i64)
    ensures
        range_width(lower, upper) <= 64,
{
    if lower <= upper {
        lemma_leading_zeros((upper - lower) as u64);
    }
}

} // verus!
