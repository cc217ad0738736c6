//! Properties that tie the encoders to the decoders.
use crate::bits::{
    bits_needed, bits_of, lemma_bits_needed_bound, lemma_leading_zeros,
    lemma_uint_bits_len, lemma_uint_value_of_bits, spliced, uint_bits, uint_value,
};
use crate::state::{lemma_append, BufferState};
use crate::encoding::{
    decode_choice_index, decode_choice_index_extensible, decode_int, decode_length,
    decode_max_signed, decode_max_unsigned, decode_normally_small, decode_octets,
    encode_choice_index,
    encode_choice_index_extensible, encode_int, encode_length, encode_max_signed,
    encode_max_unsigned, encode_normally_small, lemma_encode_length_len, magnitude, range_width,
    signed_octets, twos_complement, unsigned_octets, LENGTH_LONG_MAX,
    decode_bitstring, decode_octet_string, encode_bitstring, encode_octet_string,
    octet_length_fits, octet_length_prefix, lemma_decode_length_bound, block_is_utf8,
};
use vstd::utf8::{encode_utf8, encode_utf8_decode_utf8, encode_utf8_valid_utf8};
use vstd::arithmetic::div_mod::{lemma_mod_multiples_vanish, lemma_small_mod};
use vstd::arithmetic::power2::{
    lemma2_to64, lemma2_to64_rest, lemma_pow2_adds, lemma_pow2_pos, lemma_pow2_strictly_increases,
    lemma_pow2_unfold, pow2,
};
use vstd::prelude::*;

verus! {

/// A number below `2^n` survives being written in `n` bits and read back.
pub proof fn lemma_uint_round_trip(v: nat, n: nat, rest: Seq<bool>)
    requires
        v < pow2(n),
    ensures
        uint_bits(v, n).len() == n,
        (uint_bits(v, n) + rest).take(n as int) =~= uint_bits(v, n),
        uint_value(uint_bits(v, n)) == v,
{
    lemma_uint_bits_len(v, n);
    lemma_uint_value_of_bits(v, n);
    lemma_small_mod(v, pow2(n));
}

/// `2^a <= 2^b` when `a <= b`.
proof fn lemma_pow2_le(a: nat, b: nat)
    requires
        a <= b,
    ensures
        pow2(a) <= pow2(b),
{
    if a < b {
        lemma_pow2_strictly_increases(a, b);
    }
}

/// A constrained integer reads back as the value written, whatever follows.
pub proof fn law_int_round_trip(value: i64, lower: i64, upper: i64, rest: Seq<bool>)
    requires
        lower <= value <= upper,
    ensures
        decode_int(encode_int(value, lower, upper) + rest, lower, upper) == Some(
            (value as int, range_width(lower, upper)),
        ),
{
    let w = range_width(lower, upper);
    lemma_bits_needed_bound((upper - lower) as nat);
    lemma_uint_round_trip((value - lower) as nat, w, rest);
    let s = encode_int(value, lower, upper) + rest;
    assert(s.take(w as int) =~= uint_bits((value - lower) as nat, w));
    assert(uint_value(s.take(w as int)) == value - lower);
}

/// A range of a single value takes no bits, and reading from it always
/// gives that value.
pub proof fn law_single_value_range(value: i64, rest: Seq<bool>)
    ensures
        encode_int(value, value, value) =~= Seq::<bool>::empty(),
        decode_int(rest, value, value) == Some((value as int, 0nat)),
{
    assert(rest.take(0) =~= Seq::<bool>::empty());
}

/// A length determinant reads back as the length written.
pub proof fn law_length_round_trip(length: nat, rest: Seq<bool>)
    requires
        length <= LENGTH_LONG_MAX,
    ensures
        decode_length(encode_length(length) + rest) == Some(
            (length, encode_length(length).len()),
        ),
{
    lemma2_to64();
    lemma_encode_length_len(length);
    let e = encode_length(length);
    if length <= 127 {
        lemma_uint_round_trip(length, 7, rest);
        assert((e + rest).subrange(1, 8) =~= uint_bits(length, 7));
    } else {
        lemma_uint_round_trip(length, 14, rest);
        assert((e + rest).subrange(2, 16) =~= uint_bits(length, 14));
    }
}

/// Octet-framed numbers: a length determinant of `l` octets followed by
/// `8 * l` bits of `raw` read back as `raw` modulo `2^(8 * l)`.
proof fn lemma_octets_round_trip(raw: nat, l: nat, rest: Seq<bool>)
    requires
        1 <= l <= 8,
    ensures
        decode_octets(encode_length(l) + uint_bits(raw, 8 * l) + rest) == Some(
            (raw % pow2(8 * l), l, encode_length(l).len() + 8 * l),
        ),
{
    let e = encode_length(l);
    let b = uint_bits(raw, 8 * l);
    let s = e + b + rest;
    lemma_encode_length_len(l);
    lemma_uint_bits_len(raw, 8 * l);
    assert(s =~= e + (b + rest));
    law_length_round_trip(l, b + rest);
    assert(s.subrange(8, 8 + 8 * l as int) =~= b);
    lemma_uint_value_of_bits(raw, 8 * l);
}

/// An unconstrained unsigned integer reads back as the value written.
pub proof fn law_max_unsigned_round_trip(value: u64, rest: Seq<bool>)
    ensures
        decode_max_unsigned(encode_max_unsigned(value) + rest) == Some(
            (value as nat, encode_max_unsigned(value).len()),
        ),
{
    let l = unsigned_octets(value as nat);
    lemma_leading_zeros(value);
    lemma_octets_round_trip(value as nat, l, rest);
    lemma_uint_bits_len(value as nat, 8 * l);
    lemma_bits_needed_bound(value as nat);
    lemma_pow2_le(bits_needed(value as nat), 8 * l);
    lemma_small_mod(value as nat, pow2(8 * l));
}

/// An unconstrained signed integer reads back as the value written, at
/// every power-of-two boundary included.
pub proof fn law_max_signed_round_trip(value: i64, rest: Seq<bool>)
    ensures
        decode_max_signed(encode_max_signed(value) + rest) == Some(
            (value as int, encode_max_signed(value).len()),
        ),
{
    let m = magnitude(value);
    let l = signed_octets(value);
    let n = 8 * l;
    lemma2_to64();
    lemma2_to64_rest();
    lemma_leading_zeros(m as u64);
    lemma_bits_needed_bound(m);
    assert(bits_needed(m) <= 63) by {
        if bits_needed(m) == 64 {
            lemma_pow2_strictly_increases(63, 64);
            crate::bits::lemma_bits_needed_le(m, 63);
        }
    }
    assert(1 <= l <= 8);
    lemma_octets_round_trip(twos_complement(value), l, rest);
    lemma_uint_bits_len(twos_complement(value), n);
    lemma_pow2_le(bits_needed(m), (n - 1) as nat);
    lemma_pow2_unfold(n);
    let h = pow2((n - 1) as nat);
    let p = pow2(n);
    assert(m < h);
    if value >= 0 {
        lemma_small_mod(value as nat, p);
    } else {
        lemma_pow2_adds(n, (64 - n) as nat);
        lemma_pow2_pos((64 - n) as nat);
        let q = pow2((64 - n) as nat);
        assert(p * q == 0x1_0000_0000_0000_0000);
        assert(p * (q - 1) + (value + p) == value + 0x1_0000_0000_0000_0000) by (nonlinear_arith)
            requires
                p * q == 0x1_0000_0000_0000_0000,
        ;
        lemma_mod_multiples_vanish((q - 1) as int, value + p, p as int);
        lemma_small_mod((value + p) as nat, p);
    }
}

/// A normally-small integer reads back as the value written.
pub proof fn law_normally_small_round_trip(value: u64, rest: Seq<bool>)
    requires
        value <= i64::MAX,
    ensures
        decode_normally_small(encode_normally_small(value) + rest) == Some(
            (value as nat, encode_normally_small(value).len()),
        ),
{
    let e = encode_normally_small(value);
    let s = e + rest;
    lemma2_to64();
    if value <= 63 {
        lemma_uint_round_trip(value as nat, 6, rest);
        assert(s.subrange(1, 7) =~= uint_bits(value as nat, 6));
    } else {
        law_max_unsigned_round_trip(value, rest);
        assert(s.skip(1) =~= encode_max_unsigned(value) + rest);
    }
}

/// A choice index reads back as the index written.
pub proof fn law_choice_index_round_trip(index: u64, variants: u64, rest: Seq<bool>)
    requires
        index < variants,
    ensures
        decode_choice_index(encode_choice_index(index, variants) + rest, variants) == Some(
            (index as nat, encode_choice_index(index, variants).len()),
        ),
{
    let w = bits_needed((variants - 1) as nat);
    lemma_bits_needed_bound((variants - 1) as nat);
    lemma_uint_round_trip(index as nat, w, rest);
    lemma_uint_bits_len(index as nat, w);
}

/// An index of an extensible choice reads back as the index written, known
/// alternative or not.
pub proof fn law_choice_index_extensible_round_trip(index: u64, variants: u64, rest: Seq<bool>)
    requires
        index < variants || index - variants <= i64::MAX,
    ensures
        decode_choice_index_extensible(encode_choice_index_extensible(index, variants) + rest, variants)
            == Some((index as nat, encode_choice_index_extensible(index, variants).len())),
{
    let s = encode_choice_index_extensible(index, variants) + rest;
    if index < variants {
        law_choice_index_round_trip(index, variants, rest);
        assert(s.skip(1) =~= encode_choice_index(index, variants) + rest);
    } else {
        let v = (index - variants) as u64;
        law_normally_small_round_trip(v, rest);
        assert(s.skip(1) =~= encode_normally_small(v) + rest);
    }
}

/// Bit `j` of a byte, counted from the most significant.
pub open spec fn byte_bit(x: u8, j: int) -> bool {
    (x >> ((7 - j) as u8)) & 1u8 == 1u8
}

/// Eight equal bits make equal bytes.
pub proof fn lemma_byte_from_bits(x: u8, y: u8)
    requires
        forall|j: int| 0 <= j < 8 ==> #[trigger] byte_bit(x, j) == byte_bit(y, j),
    ensures
        x == y,
{
    assert(byte_bit(x, 0) == byte_bit(y, 0));
    assert(byte_bit(x, 1) == byte_bit(y, 1));
    assert(byte_bit(x, 2) == byte_bit(y, 2));
    assert(byte_bit(x, 3) == byte_bit(y, 3));
    assert(byte_bit(x, 4) == byte_bit(y, 4));
    assert(byte_bit(x, 5) == byte_bit(y, 5));
    assert(byte_bit(x, 6) == byte_bit(y, 6));
    assert(byte_bit(x, 7) == byte_bit(y, 7));
    assert(((x >> 7u8) & 1u8 == 1u8) == ((y >> 7u8) & 1u8 == 1u8) && ((x >> 6u8) & 1u8 == 1u8) == (
    (y >> 6u8) & 1u8 == 1u8) && ((x >> 5u8) & 1u8 == 1u8) == ((y >> 5u8) & 1u8 == 1u8) && ((x
        >> 4u8) & 1u8 == 1u8) == ((y >> 4u8) & 1u8 == 1u8) && ((x >> 3u8) & 1u8 == 1u8) == ((y
        >> 3u8) & 1u8 == 1u8) && ((x >> 2u8) & 1u8 == 1u8) == ((y >> 2u8) & 1u8 == 1u8) && ((x
        >> 1u8) & 1u8 == 1u8) == ((y >> 1u8) & 1u8 == 1u8) && ((x >> 0u8) & 1u8 == 1u8) == ((y
        >> 0u8) & 1u8 == 1u8) ==> x == y) by (bit_vector);
}

/// Byte sequences of one length with the same bits are equal: the bits
/// that a read hands back fix the bytes.
pub proof fn law_bytes_from_bits(a: Seq<u8>, b: Seq<u8>)
    requires
        a.len() == b.len(),
        bits_of(a, 0, 8 * a.len() as int) == bits_of(b, 0, 8 * b.len() as int),
    ensures
        a == b,
{
    assert forall|i: int| 0 <= i < a.len() implies a[i] == b[i] by {
        assert forall|j: int| 0 <= j < 8 implies #[trigger] byte_bit(a[i], j) == byte_bit(b[i], j) by {
            let p = 8 * i + j;
            assert(bits_of(a, 0, 8 * a.len() as int)[p] == bits_of(b, 0, 8 * b.len() as int)[p]);
            assert(p / 8 == i && p % 8 == j);
        }
        lemma_byte_from_bits(a[i], b[i]);
    }
    assert(a =~= b);
}

/// Writing a bit string at any source offset and reading it back at the same
/// offset reproduces the source bits, whatever the destination held before.
pub proof fn law_bit_string_offset_invariance(
    st: BufferState,
    src: Seq<u8>,
    offset: int,
    length: int,
    before: Seq<u8>,
    after: Seq<u8>,
)
    requires
        st.wf(),
        st.read == st.write,
        0 <= offset,
        0 <= length,
        offset + length <= src.len() * 8,
        offset + length <= before.len() * 8,
        spliced(before, after, offset, st.append(bits_of(src, offset, length)).unread().take(length)),
    ensures
        bits_of(after, offset, length) == bits_of(src, offset, length),
{
    let s = bits_of(src, offset, length);
    lemma_append(st, s);
    assert(st.unread() =~= Seq::<bool>::empty());
    assert(st.append(s).unread().take(length) =~= s);
    assert(bits_of(after, offset, length) =~= s);
}

/// An octet string reads back as the bytes written: the decoder finds
/// their count, and the bits it hands over are theirs.
pub proof fn law_octet_string_round_trip(
    bytes: Seq<u8>,
    range: Option<(i64, i64)>,
    rest: Seq<bool>,
)
    requires
        octet_length_fits(bytes.len(), range),
        bytes.len() <= i64::MAX,
    ensures
        decode_octet_string(encode_octet_string(bytes, range) + rest, range) == Some(
            (bytes.len(), encode_octet_string(bytes, range).len()),
        ),
        (encode_octet_string(bytes, range) + rest).subrange(
            encode_octet_string(bytes, range).len() - 8 * bytes.len(),
            encode_octet_string(bytes, range).len() as int,
        ) == bits_of(bytes, 0, 8 * bytes.len() as int),
{
    let l = bytes.len();
    let p = octet_length_prefix(l, range);
    let b = bits_of(bytes, 0, 8 * l as int);
    let s = encode_octet_string(bytes, range) + rest;
    assert(s =~= p + (b + rest));
    match range {
        Some((lower, upper)) => {
            law_int_round_trip(l as i64, lower, upper, b + rest);
            lemma_uint_bits_len(((l as i64) - lower) as nat, range_width(lower, upper));
        },
        None => {
            law_length_round_trip(l, b + rest);
        },
    }
    assert(s.subrange(p.len() as int, (p.len() + 8 * l) as int) =~= b);
}

/// A bit string reads back as the bits written.
pub proof fn law_bitstring_round_trip(bits: Seq<bool>, rest: Seq<bool>)
    requires
        bits.len() <= LENGTH_LONG_MAX,
    ensures
        decode_bitstring(encode_bitstring(bits) + rest) == Some(
            (bits.len(), encode_bitstring(bits).len()),
        ),
        (encode_bitstring(bits) + rest).subrange(
            encode_bitstring(bits).len() - bits.len(),
            encode_bitstring(bits).len() as int,
        ) == bits,
{
    let e = encode_length(bits.len());
    let s = encode_bitstring(bits) + rest;
    assert(s =~= e + (bits + rest));
    law_length_round_trip(bits.len(), bits + rest);
    assert(s.subrange(e.len() as int, (e.len() + bits.len()) as int) =~= bits);
}

/// An octet string under a size range of one size spends no bits on its
/// length: only its bytes go on the wire, and a reader takes the next
/// `8 * size` bits whatever they hold.
pub proof fn law_octet_string_single_size(bytes: Seq<u8>, s: Seq<bool>)
    requires
        bytes.len() <= i64::MAX,
    ensures
        encode_octet_string(bytes, Some((bytes.len() as i64, bytes.len() as i64))) =~= bits_of(
            bytes,
            0,
            8 * bytes.len() as int,
        ),
        s.len() >= 8 * bytes.len() ==> decode_octet_string(
            s,
            Some((bytes.len() as i64, bytes.len() as i64)),
        ) == Some((bytes.len(), 8 * bytes.len())),
{
    let size = bytes.len() as i64;
    law_single_value_range(size, s);
    assert(encode_int(size, size, size) + bits_of(bytes, 0, 8 * bytes.len() as int) =~= bits_of(
        bytes,
        0,
        8 * bytes.len() as int,
    ));
}

/// A block framed by a length determinant decodes the same whatever follows
/// it: a reader of the block cannot observe the bits beyond its end.
pub proof fn law_framing_isolation(s: Seq<bool>, t: Seq<bool>)
    requires
        decode_octet_string(s, None) is Some,
    ensures
        ({
            let (l, n) = decode_octet_string(s, None).unwrap();
            &&& decode_octet_string(s.take(n as int) + t, None) == Some((l, n))
            &&& (s.take(n as int) + t).subrange(n - 8 * l, n as int) == s.subrange(
                n - 8 * l,
                n as int,
            )
        }),
{
    let (l, n) = decode_octet_string(s, None).unwrap();
    let u = s.take(n as int) + t;
    lemma_decode_length_bound(s);
    let k = decode_length(s).unwrap().1;
    assert(k <= n);
    if !s[0] {
        assert(u[0] == s[0]);
        assert(u.subrange(1, 8) =~= s.subrange(1, 8));
    } else {
        assert(u[0] == s[0] && u[1] == s[1]);
        assert(u.subrange(2, 16) =~= s.subrange(2, 16));
    }
    assert(u.subrange(n - 8 * l, n as int) =~= s.subrange(n - 8 * l, n as int));
}

/// A UTF-8 string reads back as the characters written: the block holds
/// valid UTF-8, so the read succeeds, and any string whose encoding has the
/// block's bits is the one written.
pub proof fn law_utf8_round_trip(chars: Seq<char>, rest: Seq<bool>, other: Seq<char>)
    requires
        encode_utf8(chars).len() <= LENGTH_LONG_MAX,
    ensures
        ({
            let b = encode_utf8(chars);
            let e = encode_octet_string(b, None);
            &&& decode_octet_string(e + rest, None) == Some((b.len(), e.len()))
            &&& block_is_utf8(e + rest, b.len(), e.len())
            &&& encode_utf8(other).len() == b.len() && bits_of(encode_utf8(other), 0, 8 * b.len() as int)
                == (e + rest).subrange(e.len() - 8 * b.len(), e.len() as int) ==> other == chars
        }),
{
    let b = encode_utf8(chars);
    let e = encode_octet_string(b, None);
    law_octet_string_round_trip(b, None, rest);
    encode_utf8_valid_utf8(chars);
    assert(bits_of(b, 0, 8 * b.len() as int) == (e + rest).subrange(
        e.len() - 8 * b.len(),
        e.len() as int,
    ));
    let o = encode_utf8(other);
    if o.len() == b.len() && bits_of(o, 0, 8 * b.len() as int) == (e + rest).subrange(
        e.len() - 8 * b.len(),
        e.len() as int,
    ) {
        law_bytes_from_bits(o, b);
        encode_utf8_decode_utf8(chars);
        encode_utf8_decode_utf8(other);
    }
}

} // verus!
