//! The bit buffer and the UPER primitives on it.
use crate::bits::{
    bit_at, bits_needed, bits_of, lemma_bits_needed_le, lemma_leading_zeros, lemma_uint_bits_len,
    lemma_uint_value_bound, lemma_with_bit, spliced, uint_bits, uint_value, with_bit,
};
use crate::encoding::{
    LENGTH_LONG_MAX, LENGTH_SHORT_MAX, NORMALLY_SMALL_INLINE_MAX, block_is_utf8,
    choice_index_extensible_error,
    decode_bitstring, decode_choice_index, decode_choice_index_extensible, decode_int,
    decode_length, decode_max_signed, decode_max_unsigned, decode_normally_small,
    decode_octet_length, decode_octet_string, decode_octets, encode_bitstring, encode_choice_index,
    encode_choice_index_extensible, encode_int, encode_length, encode_max_signed,
    encode_max_unsigned, encode_normally_small, encode_octet_string, lemma_decode_length_bound,
    lemma_encode_length_len, lemma_normally_small_len, lemma_range_width_bound, length_unsupported,
    normally_small_unsupported, octet_length_error, octet_length_fits, octet_length_prefix,
    octets_unsupported, range_width, signed_octets, twos_complement, unsigned_octets,
};
use crate::laws::law_bytes_from_bits;
use crate::state::{
    lemma_append, lemma_append_byte_steps, lemma_append_concat, lemma_append_one,
    lemma_partial_byte_full, lemma_push_bit, lemma_skip, BufferState,
};
use vstd::arithmetic::power2::{
    lemma2_to64, lemma2_to64_rest, lemma_pow2_strictly_increases, lemma_pow2_unfold, pow2,
};
use crate::Error;
use vstd::prelude::*;
use vstd::string::StringSliceAdditionalSpecFns;
use vstd::utf8::{encode_utf8, valid_utf8};

verus! {

/// `2^k` as a 128-bit integer.
fn pow2_u128(k: usize) -> (r: u128)
    requires
        k <= 64,
    ensures
        r == pow2(k as nat),
{
    proof {
        lemma2_to64();
    }
    let mut p: u128 = 1;
    let mut i: usize = 0;
    while i < k
        invariant
            i <= k <= 64,
            p == pow2(i as nat),
        decreases k - i,
    {
        proof {
            lemma_pow2_unfold((i + 1) as nat);
            lemma2_to64_rest();
            if i < 64 {
                lemma_pow2_strictly_increases(i as nat, 64);
            }
        }
        p = p * 2;
        i = i + 1;
    }
    p
}

/// `n` zero bytes.
fn zeroed(n: usize) -> (r: Vec<u8>)
    ensures
        r@ == Seq::new(n as nat, |_i: int| 0u8),
{
    let mut v: Vec<u8> = Vec::new();
    let mut i: usize = 0;
    while i < n
        invariant
            i <= n,
            v@ == Seq::new(i as nat, |_i: int| 0u8),
        decreases n - i,
    {
        v.push(0u8);
        i = i + 1;
        assert(v@ =~= Seq::new(i as nat, |_i: int| 0u8));
    }
    v
}

/// Relies on `String::from_utf8`: it succeeds exactly on valid UTF-8 and
/// then holds those bytes.
#[verifier::external_body]
fn string_from_utf8(bytes: Vec<u8>) -> (r: Option<String>)
    ensures
        r is Some <==> valid_utf8(bytes@),
        r matches Some(s) ==> encode_utf8(s@) == bytes@,
{
    String::from_utf8(bytes).ok()
}

/// A growable byte store with a bit-granular write length and read cursor.
/// A buffer made over existing bytes writes into them first and grows past
/// their end, so writing never runs out of space.
pub struct BitBuffer {
    buffer: Vec<u8>,
    write_position: usize,
    read_position: usize,
}

impl View for BitBuffer {
    type V = BufferState;

    closed spec fn view(&self) -> BufferState {
        BufferState {
            storage: self.buffer@,
            write: self.write_position as nat,
            read: self.read_position as nat,
        }
    }
}

impl Default for BitBuffer {
    /// An empty buffer.
    fn default() -> (r: BitBuffer)
        ensures
            r.wf(),
            r@ == (BufferState { storage: seq![], write: 0, read: 0 }),
    {
        BitBuffer::new()
    }
}

impl BitBuffer {
    pub open spec fn wf(&self) -> bool {
        self@.wf()
    }

    /// Room for `n` more bits before the bit counters would overflow.
    pub open spec fn has_room(&self, n: int) -> bool {
        self@.write + n <= usize::MAX
    }

    /// An empty buffer.
    pub fn new() -> (r: BitBuffer)
        ensures
            r.wf(),
            r@ == (BufferState { storage: seq![], write: 0, read: 0 }),
    {
        BitBuffer { buffer: Vec::new(), write_position: 0, read_position: 0 }
    }

    /// A buffer over `buffer` whose first `bit_length` bits are committed,
    /// read from the start.
    pub fn from_bits(buffer: Vec<u8>, bit_length: usize) -> (r: BitBuffer)
        requires
            bit_length <= buffer@.len() * 8,
        ensures
            r.wf(),
            r@ == (BufferState { storage: buffer@, write: bit_length as nat, read: 0 }),
    {
        BitBuffer { buffer, write_position: bit_length, read_position: 0 }
    }

    /// A buffer over `buffer` with `write_position` committed bits and the
    /// read cursor at `read_position`.
    pub fn from_bits_with_position(
        buffer: Vec<u8>,
        write_position: usize,
        read_position: usize,
    ) -> (r: BitBuffer)
        requires
            read_position <= write_position <= buffer@.len() * 8,
        ensures
            r.wf(),
            r@ == (BufferState {
                storage: buffer@,
                write: write_position as nat,
                read: read_position as nat,
            }),
    {
        BitBuffer { buffer, write_position, read_position }
    }

    /// A buffer whose every bit of `buffer` is committed.
    pub fn from_bytes(buffer: Vec<u8>) -> (r: BitBuffer)
        requires
            buffer@.len() * 8 <= usize::MAX,
        ensures
            r.wf(),
            r@ == (BufferState { storage: buffer@, write: buffer@.len() * 8, read: 0 }),
    {
        let n = buffer.len() * 8;
        BitBuffer { buffer, write_position: n, read_position: 0 }
    }

    /// The byte store.
    pub fn content(&self) -> (r: &[u8])
        ensures
            r@ == self@.storage,
    {
        self.buffer.as_slice()
    }

    /// The byte store, taken out of the buffer.
    pub fn into_bytes(self) -> (r: Vec<u8>)
        ensures
            r@ == self@.storage,
    {
        self.buffer
    }

    /// The number of committed bits.
    pub fn bit_len(&self) -> (r: usize)
        ensures
            r == self@.write,
    {
        self.write_position
    }

    /// The read cursor.
    pub fn read_position(&self) -> (r: usize)
        ensures
            r == self@.read,
    {
        self.read_position
    }

    /// Appends one bit.
    pub fn write_bit(&mut self, bit: bool) -> (r: Result<(), Error>)
        requires
            old(self).wf(),
            old(self).has_room(1),
        ensures
            r is Ok,
            final(self).wf(),
            final(self)@ == old(self)@.push_bit(bit),
            final(self)@.bits() == old(self)@.bits().push(bit),
    {
        proof {
            lemma_push_bit(self@, bit);
        }
        if self.write_position / 8 >= self.buffer.len() {
            self.buffer.push(0u8);
        }
        let i = self.write_position / 8;
        let mask = 0x80u8 >> ((self.write_position % 8) as u8);
        if bit {
            self.buffer[i] = self.buffer[i] | mask;
        } else {
            self.buffer[i] = self.buffer[i] & !mask;
        }
        self.write_position = self.write_position + 1;
        Ok(())
    }

    /// Reads the next committed bit.
    pub fn read_bit(&mut self) -> (r: Result<bool, Error>)
        requires
            old(self).wf(),
        ensures
            final(self).wf(),
            old(self)@.read < old(self)@.write ==>
                r == Ok::<bool, Error>(old(self)@.bits()[old(self)@.read as int])
                && final(self)@ == old(self)@.skip(1),
            old(self)@.read == old(self)@.write ==> r == Err::<bool, Error>(Error::EndOfStream)
                && final(self)@ == old(self)@,
    {
        if self.read_position >= self.write_position {
            return Err(Error::EndOfStream);
        }
        let i = self.read_position / 8;
        let b = (self.buffer[i] >> ((7 - self.read_position % 8) as u8)) & 1u8 == 1u8;
        self.read_position = self.read_position + 1;
        Ok(b)
    }
    /// Appends the `n` low bits of `value`, most significant first.
    fn write_uint(&mut self, value: u64, n: usize) -> (r: Result<(), Error>)
        requires
            old(self).wf(),
            n <= 64,
            old(self).has_room(n as int),
        ensures
            r is Ok,
            final(self).wf(),
            final(self)@ == old(self)@.append(uint_bits(value as nat, n as nat)),
            final(self)@.write == old(self)@.write + n,
        decreases n,
    {
        if n > 0 {
            let _ = self.write_uint(value / 2, n - 1);
            proof {
                lemma_uint_bits_len(value as nat / 2, (n - 1) as nat);
                lemma_append(old(self)@, uint_bits(value as nat / 2, (n - 1) as nat));
                assert(uint_bits(value as nat, n as nat).drop_last() =~= uint_bits(
                    value as nat / 2,
                    (n - 1) as nat,
                ));
            }
            let _ = self.write_bit(value % 2 == 1);
        }
        Ok(())
    }

    /// Reads the next `n` bits as an unsigned number, most significant first.
    fn read_uint(&mut self, n: usize) -> (r: Result<u64, Error>)
        requires
            old(self).wf(),
            n <= 64,
        ensures
            final(self).wf(),
            old(self)@.unread().len() >= n ==> (r matches Ok(x) && x as nat == uint_value(
                old(self)@.unread().take(n as int),
            )) && final(self)@ == old(self)@.skip(n as nat),
            old(self)@.unread().len() < n ==> r == Err::<u64, Error>(Error::EndOfStream)
                && final(self)@ == old(self)@,
    {
        if self.write_position - self.read_position < n {
            return Err(Error::EndOfStream);
        }
        let ghost start = self@;
        let mut acc: u64 = 0;
        let mut k: usize = 0;
        while k < n
            invariant
                self.wf(),
                k <= n <= 64,
                start.unread().len() >= n,
                self@ == start.skip(k as nat),
                acc as nat == uint_value(start.unread().take(k as int)),
            decreases n - k,
        {
            let b = self.read_bit();
            proof {
                let t = start.unread().take(k as int);
                lemma_uint_value_bound(t);
                lemma2_to64();
                lemma2_to64_rest();
                if k < 63 {
                    lemma_pow2_strictly_increases(k as nat, 63);
                }
                assert(start.unread().take(k + 1).drop_last() =~= t);
            }
            let bit: u64 = match b {
                Ok(true) => 1,
                _ => 0,
            };
            acc = acc * 2 + bit;
            k = k + 1;
        }
        assert(start.unread().take(n as int).len() == n);
        Ok(acc)
    }

    /// Appends `bit_length` bits of `src`, starting at bit `bit_offset` of it.
    pub fn write_bit_string(&mut self, src: &[u8], bit_offset: usize, bit_length: usize) -> (r:
        Result<(), Error>)
        requires
            old(self).wf(),
            old(self).has_room(bit_length as int),
            bit_offset + bit_length <= usize::MAX,
        ensures
            final(self)@.write <= old(self)@.write + bit_length,
            final(self).wf(),
            bit_offset + bit_length <= src@.len() * 8 ==> r is Ok
                && final(self)@ == old(self)@.append(
                bits_of(src@, bit_offset as int, bit_length as int),
            ),
            bit_offset + bit_length > src@.len() * 8 ==> r == Err::<(), Error>(
                Error::InsufficientDataInSourceBuffer,
            ) && final(self)@ == old(self)@,
    {
        if bit_offset as u128 + bit_length as u128 > src.len() as u128 * 8 {
            return Err(Error::InsufficientDataInSourceBuffer);
        }
        let ghost start = self@;
        let mut k: usize = 0;
        while k < bit_length
            invariant
                start.wf(),
                self.wf(),
                k <= bit_length,
                bit_offset + bit_length <= usize::MAX,
                bit_offset + bit_length <= src@.len() * 8,
                start.write + bit_length <= usize::MAX,
                self@ == start.append(bits_of(src@, bit_offset as int, k as int)),
            decreases bit_length - k,
        {
            let i = bit_offset + k;
            proof {
                lemma_append(start, bits_of(src@, bit_offset as int, k as int));
            }
            if i % 8 == 0 && self.write_position % 8 == 0 && bit_length - k >= 8
                && self.write_position / 8 == self.buffer.len() {
                // both sides on a byte boundary at the end of the store: copy a whole byte
                let byte = src[i / 8];
                proof {
                    let whole = bits_of(src@, bit_offset as int, k + 8);
                    let done = bits_of(src@, bit_offset as int, k as int);
                    let next = bits_of(seq![byte], 0, 8);
                    assert forall|t: int| 0 <= t < 8 implies #[trigger] next[t] == whole[k + t] by {
                        assert((i + t) / 8 == i / 8);
                        assert((i + t) % 8 == t);
                    }
                    assert(whole =~= done + next);
                    lemma_append_concat(start, done, next);
                    assert(next.take(8) =~= next);
                    lemma_append_byte_steps(self@, byte, 8);
                    lemma_partial_byte_full(byte);
                }
                self.buffer.push(byte);
                self.write_position = self.write_position + 8;
                k = k + 8;
                continue;
            }
            proof {
                lemma_append(start, bits_of(src@, bit_offset as int, k as int));
                assert(bits_of(src@, bit_offset as int, k + 1).drop_last() =~= bits_of(
                    src@,
                    bit_offset as int,
                    k as int,
                ));
            }
            let bit = (src[i / 8] >> ((7 - i % 8) as u8)) & 1u8 == 1u8;
            let _ = self.write_bit(bit);
            k = k + 1;
        }
        proof {
            lemma_append(start, bits_of(src@, bit_offset as int, bit_length as int));
        }
        Ok(())
    }

    /// Appends every bit of `src` from bit `bit_offset` on.
    pub fn write_bit_string_till_end(&mut self, src: &[u8], bit_offset: usize) -> (r: Result<
        (),
        Error,
    >)
        requires
            old(self).wf(),
            old(self).has_room(src@.len() * 8 - bit_offset),
            src@.len() * 8 <= usize::MAX,
        ensures
            final(self)@.write <= old(self)@.write + src@.len() * 8,
            final(self).wf(),
            bit_offset <= src@.len() * 8 ==> r is Ok && final(self)@ == old(self)@.append(
                bits_of(src@, bit_offset as int, src@.len() * 8 - bit_offset),
            ),
            bit_offset > src@.len() * 8 ==> r == Err::<(), Error>(
                Error::InsufficientDataInSourceBuffer,
            ) && final(self)@ == old(self)@,
    {
        if bit_offset as u128 > src.len() as u128 * 8 {
            return Err(Error::InsufficientDataInSourceBuffer);
        }
        let len = src.len() * 8 - bit_offset;
        self.write_bit_string(src, bit_offset, len)
    }

    /// Reads `bit_length` bits into `dest`, starting at bit `bit_offset` of it;
    /// the other bits of `dest` are kept.
    pub fn read_bit_string(&mut self, dest: &mut [u8], bit_offset: usize, bit_length: usize) -> (r:
        Result<(), Error>)
        requires
            old(self).wf(),
            bit_offset + bit_length <= usize::MAX,
        ensures
            final(self).wf(),
            bit_offset + bit_length > old(dest)@.len() * 8 ==> r == Err::<(), Error>(
                Error::InsufficientSpaceInDestinationBuffer,
            ) && final(self)@ == old(self)@ && final(dest)@ == old(dest)@,
            bit_offset + bit_length <= old(dest)@.len() * 8 && old(self)@.unread().len()
                < bit_length ==> r == Err::<(), Error>(Error::EndOfStream)
                    && final(self)@ == old(self)@ && final(dest)@ == old(dest)@,
            bit_offset + bit_length <= old(dest)@.len() * 8 && old(self)@.unread().len()
                >= bit_length ==> r is Ok && final(self)@ == old(self)@.skip(bit_length as nat)
                && spliced(
                old(dest)@,
                final(dest)@,
                bit_offset as int,
                old(self)@.unread().take(bit_length as int),
            ),
    {
        if bit_offset as u128 + bit_length as u128 > dest.len() as u128 * 8 {
            return Err(Error::InsufficientSpaceInDestinationBuffer);
        }
        if self.write_position - self.read_position < bit_length {
            return Err(Error::EndOfStream);
        }
        let ghost start = self@;
        let ghost before = dest@;
        let ghost s = start.unread().take(bit_length as int);
        let mut k: usize = 0;
        while k < bit_length
            invariant
                self.wf(),
                k <= bit_length,
                bit_offset + bit_length <= usize::MAX,
                bit_offset + bit_length <= before.len() * 8,
                start.unread().len() >= bit_length,
                s == start.unread().take(bit_length as int),
                self@ == start.skip(k as nat),
                spliced(before, dest@, bit_offset as int, s.take(k as int)),
            decreases bit_length - k,
        {
            let i = bit_offset + k;
            let j = i / 8;
            if i % 8 == 0 && self.read_position % 8 == 0 && bit_length - k >= 8 {
                // both sides on a byte boundary: copy a whole byte
                let ghost mid = dest@;
                let byte = self.buffer[self.read_position / 8];
                dest[j] = byte;
                proof {
                    let rp = self@.read as int;
                    assert forall|p: int| 0 <= p < before.len() * 8 implies #[trigger] bit_at(
                        dest@,
                        p,
                    ) == if bit_offset <= p < bit_offset + k + 8 {
                        s.take(k + 8)[p - bit_offset]
                    } else {
                        bit_at(before, p)
                    } by {
                        if p / 8 == j {
                            let t = p - i;
                            assert(0 <= t < 8);
                            assert((rp + t) / 8 == rp / 8 && (rp + t) % 8 == t);
                            assert(s.take(k + 8)[p - bit_offset] == start.bits()[rp + t]);
                        } else {
                            assert(bit_at(dest@, p) == bit_at(mid, p));
                            assert(!(i <= p < i + 8));
                        }
                    }
                }
                self.read_position = self.read_position + 8;
                k = k + 8;
                continue;
            }
            let b = self.read_bit();
            let bit = match b {
                Ok(x) => x,
                Err(_) => false,
            };
            let mask = 0x80u8 >> ((i % 8) as u8);
            let ghost mid = dest@;
            if bit {
                dest[j] = dest[j] | mask;
            } else {
                dest[j] = dest[j] & !mask;
            }
            proof {
                assert(bit == s[k as int]);
                assert forall|p: int| 0 <= p < before.len() * 8 implies #[trigger] bit_at(dest@, p)
                    == if bit_offset <= p < bit_offset + k + 1 {
                    s.take(k + 1)[p - bit_offset]
                } else {
                    bit_at(before, p)
                } by {
                    if p / 8 == j {
                        lemma_with_bit(mid[j as int], (p % 8) as u8, (i % 8) as u8, bit);
                        assert(dest@[j as int] == with_bit(mid[j as int], (i % 8) as int, bit));
                    }
                    assert(bit_at(mid, p) == if bit_offset <= p < bit_offset + k {
                        s.take(k as int)[p - bit_offset]
                    } else {
                        bit_at(before, p)
                    });
                }
            }
            k = k + 1;
        }
        assert(s.take(bit_length as int) =~= s);
        Ok(())
    }

    /// Fills `dest` from bit `bit_offset` to its end.
    pub fn read_bit_string_till_end(&mut self, dest: &mut [u8], bit_offset: usize) -> (r: Result<
        (),
        Error,
    >)
        requires
            old(self).wf(),
            old(dest)@.len() * 8 <= usize::MAX,
        ensures
            final(self).wf(),
            bit_offset > old(dest)@.len() * 8 ==> r == Err::<(), Error>(
                Error::InsufficientSpaceInDestinationBuffer,
            ) && final(self)@ == old(self)@ && final(dest)@ == old(dest)@,
            bit_offset <= old(dest)@.len() * 8 && old(self)@.unread().len() < old(dest)@.len() * 8
                - bit_offset ==> r == Err::<(), Error>(Error::EndOfStream)
                    && final(self)@ == old(self)@ && final(dest)@ == old(dest)@,
            bit_offset <= old(dest)@.len() * 8 && old(self)@.unread().len() >= old(dest)@.len() * 8
                - bit_offset ==> r is Ok && final(self)@ == old(self)@.skip(
                (old(dest)@.len() * 8 - bit_offset) as nat,
            ) && spliced(
                old(dest)@,
                final(dest)@,
                bit_offset as int,
                old(self)@.unread().take(old(dest)@.len() * 8 - bit_offset),
            ),
    {
        if bit_offset as u128 > dest.len() as u128 * 8 {
            return Err(Error::InsufficientSpaceInDestinationBuffer);
        }
        let len = dest.len() * 8 - bit_offset;
        self.read_bit_string(dest, bit_offset, len)
    }
    /// Appends `value` as a constrained integer over `lower..=upper`
    /// (inclusive), in the fewest bits that hold `upper - lower`.
    pub fn write_int(&mut self, value: i64, range: (i64, i64)) -> (r: Result<(), Error>)
        requires
            old(self).wf(),
            old(self).has_room(64),
        ensures
            final(self)@.write <= old(self)@.write + 64,
            final(self).wf(),
            range.0 <= value <= range.1 ==> r is Ok && final(self)@ == old(self)@.append(
                encode_int(value, range.0, range.1),
            ),
            !(range.0 <= value <= range.1) ==> r == Err::<(), Error>(
                Error::ValueNotInRange(value, range.0, range.1),
            ) && final(self)@ == old(self)@,
    {
        let (lower, upper) = range;
        if value < lower || value > upper {
            return Err(Error::ValueNotInRange(value, lower, upper));
        }
        let span = (upper as i128 - lower as i128) as u64;
        let offset = (value as i128 - lower as i128) as u64;
        let width = 64 - span.leading_zeros();
        proof {
            lemma_leading_zeros(span);
            lemma_range_width_bound(lower, upper);
        }
        self.write_uint(offset, width as usize)
    }

    /// Reads a constrained integer over `lower..=upper` (inclusive).
    pub fn read_int(&mut self, range: (i64, i64)) -> (r: Result<i64, Error>)
        requires
            old(self).wf(),
            range.0 <= range.1,
        ensures
            final(self).wf(),
            decode_int(old(self)@.unread(), range.0, range.1) matches Some((v, n)) ==> r
                == Ok::<i64, Error>(v as i64) && final(self)@ == old(self)@.skip(n),
            decode_int(old(self)@.unread(), range.0, range.1) is None ==> (r is Err)
                && final(self)@ == old(self)@,
            r == Err::<i64, Error>(Error::EndOfStream) <==> old(self)@.unread().len()
                < range_width(range.0, range.1),
            (r is Err) && old(self)@.unread().len() >= range_width(range.0, range.1) ==>
                (r matches Err(
                Error::ValueNotInRange(_, l, u),
            ) && l == range.0 && u == range.1),
    {
        let (lower, upper) = range;
        let span = (upper as i128 - lower as i128) as u64;
        let width = 64 - span.leading_zeros();
        proof {
            lemma_leading_zeros(span);
        }
        let start = self.read_position;
        let raw = match self.read_uint(width as usize) {
            Ok(raw) => raw,
            Err(e) => {
                return Err(e);
            },
        };
        if raw > span {
            self.read_position = start;
            let shown = lower.wrapping_add(#[verifier::truncate] (raw as i64));
            return Err(Error::ValueNotInRange(shown, lower, upper));
        }
        Ok((lower as i128 + raw as i128) as i64)
    }

    /// Appends a length determinant. Lengths above 16383 are not supported.
    pub fn write_length_determinant(&mut self, length: usize) -> (r: Result<(), Error>)
        requires
            old(self).wf(),
            old(self).has_room(16),
        ensures
            final(self)@.write <= old(self)@.write + 16,
            final(self).wf(),
            length <= LENGTH_LONG_MAX ==> r is Ok && final(self)@ == old(self)@.append(
                encode_length(length as nat),
            ),
            length > LENGTH_LONG_MAX ==> (r matches Err(Error::UnsupportedOperation(_)))
                && final(self)@ == old(self)@,
    {
        proof {
            lemma_encode_length_len(length as nat);
        }
        if length <= LENGTH_SHORT_MAX {
            let _ = self.write_bit(false);
            proof {
                lemma_append_concat(old(self)@, seq![false], uint_bits(length as nat, 7));
                lemma_append_one(old(self)@, false);
            }
            self.write_uint(length as u64, 7)
        } else if length <= LENGTH_LONG_MAX {
            let _ = self.write_bit(true);
            let _ = self.write_bit(false);
            proof {
                lemma_append_concat(old(self)@, seq![true, false], uint_bits(length as nat, 14));
                lemma_append_concat(old(self)@, seq![true], seq![false]);
                assert(seq![true] + seq![false] =~= seq![true, false]);
                lemma_append_one(old(self)@, true);
                lemma_append_one(old(self)@.push_bit(true), false);
            }
            self.write_uint(length as u64, 14)
        } else {
            Err(Error::UnsupportedOperation("length determinant above 16383".to_owned()))
        }
    }

    /// Reads a length determinant.
    pub fn read_length_determinant(&mut self) -> (r: Result<usize, Error>)
        requires
            old(self).wf(),
        ensures
            final(self).wf(),
            decode_length(old(self)@.unread()) matches Some((v, n)) ==> r == Ok::<usize, Error>(
                v as usize,
            ) && final(self)@ == old(self)@.skip(n),
            decode_length(old(self)@.unread()) is None ==> (r is Err) && final(self)@ == old(self)@,
            r matches Err(e) ==> (e is UnsupportedOperation <==> length_unsupported(
                old(self)@.unread(),
            )),
            r matches Err(e) ==> (e is EndOfStream <==> !length_unsupported(old(self)@.unread())),
    {
        let ghost s = old(self)@.unread();
        let start = self.read_position;
        let first = match self.read_bit() {
            Ok(b) => b,
            Err(e) => {
                return Err(e);
            },
        };
        let n: usize = if !first {
            7
        } else {
            let second = match self.read_bit() {
                Ok(b) => b,
                Err(e) => {
                    self.read_position = start;
                    return Err(e);
                },
            };
            if second {
                self.read_position = start;
                return Err(
                    Error::UnsupportedOperation("length determinant above 16383".to_owned()),
                );
            }
            14
        };
        let ghost mid = self@;
        match self.read_uint(n) {
            Ok(v) => {
                proof {
                    let k: int = if n == 7 {
                        1
                    } else {
                        2
                    };
                    assert(mid.unread() =~= s.subrange(k, s.len() as int));
                    assert(mid.unread().take(n as int) =~= s.subrange(k, k + n));
                    lemma_uint_value_bound(s.subrange(k, k + n));
                    lemma2_to64();
                }
                Ok(v as usize)
            },
            Err(e) => {
                self.read_position = start;
                Err(e)
            },
        }
    }
    /// Appends an unconstrained unsigned integer in its fewest octets.
    pub fn write_int_max_unsigned(&mut self, value: u64) -> (r: Result<(), Error>)
        requires
            old(self).wf(),
            old(self).has_room(80),
        ensures
            final(self)@.write <= old(self)@.write + 80,
            r is Ok,
            final(self).wf(),
            final(self)@ == old(self)@.append(encode_max_unsigned(value)),
    {
        let width = 64 - value.leading_zeros();
        proof {
            lemma_leading_zeros(value);
        }
        let octets: usize = if width == 0 {
            1
        } else {
            ((width + 7) / 8) as usize
        };
        proof {
            assert(octets == unsigned_octets(value as nat));
            lemma_encode_length_len(octets as nat);
            lemma_uint_bits_len(value as nat, 8 * octets as nat);
            lemma_append(old(self)@, encode_length(octets as nat));
            lemma_append_concat(
                old(self)@,
                encode_length(octets as nat),
                uint_bits(value as nat, 8 * octets as nat),
            );
        }
        let _ = self.write_length_determinant(octets);
        self.write_uint(value, 8 * octets)
    }

    /// Appends an unconstrained signed integer in the fewest octets whose
    /// leading bit carries its sign.
    pub fn write_int_max_signed(&mut self, value: i64) -> (r: Result<(), Error>)
        requires
            old(self).wf(),
            old(self).has_room(80),
        ensures
            final(self)@.write <= old(self)@.write + 80,
            r is Ok,
            final(self).wf(),
            final(self)@ == old(self)@.append(encode_max_signed(value)),
    {
        let magnitude: u64 = if value >= 0 {
            value as u64
        } else {
            (-(value as i128) - 1) as u64
        };
        let width = 64 - magnitude.leading_zeros();
        proof {
            lemma_leading_zeros(magnitude);
            lemma2_to64();
            lemma2_to64_rest();
            lemma_bits_needed_le(magnitude as nat, 63);
        }
        let octets: usize = (width / 8 + 1) as usize;
        let pattern: u64 = if value >= 0 {
            value as u64
        } else {
            (value as i128 + 0x1_0000_0000_0000_0000i128) as u64
        };
        proof {
            assert(octets == signed_octets(value));
            assert(pattern == twos_complement(value));
            lemma_encode_length_len(octets as nat);
            lemma_uint_bits_len(pattern as nat, 8 * octets as nat);
            lemma_append(old(self)@, encode_length(octets as nat));
            lemma_append_concat(
                old(self)@,
                encode_length(octets as nat),
                uint_bits(pattern as nat, 8 * octets as nat),
            );
        }
        let _ = self.write_length_determinant(octets);
        self.write_uint(pattern, 8 * octets)
    }

    /// Reads a length determinant and that many octets, at most eight.
    fn read_octets(&mut self) -> (r: Result<(u64, usize), Error>)
        requires
            old(self).wf(),
        ensures
            final(self).wf(),
            decode_octets(old(self)@.unread()) matches Some((v, l, n)) ==> (r matches Ok((x, y))
                && x == v && y == l) && final(self)@ == old(self)@.skip(n),
            decode_octets(old(self)@.unread()) is None ==> (r is Err) && final(self)@ == old(self)@,
            r matches Err(e) ==> (e is UnsupportedOperation <==> octets_unsupported(
                old(self)@.unread(),
            )) && (e is EndOfStream <==> !octets_unsupported(old(self)@.unread())),
    {
        let ghost s = old(self)@.unread();
        let start = self.read_position;
        let octets = match self.read_length_determinant() {
            Ok(l) => l,
            Err(e) => {
                return Err(e);
            },
        };
        if octets > 8 {
            self.read_position = start;
            return Err(
                Error::UnsupportedOperation(
                    "integers wider than 64 bits are not supported".to_owned(),
                ),
            );
        }
        let ghost mid = self@;
        proof {
            lemma_decode_length_bound(s);
            let k = decode_length(s).unwrap().1;
            lemma_skip(old(self)@, k);
            assert(mid.unread() =~= s.skip(k as int));
            assert(mid.unread().len() == s.len() - k);
            if mid.unread().len() >= 8 * octets {
                assert(mid.unread().take(8 * octets) =~= s.subrange(k as int, k + 8 * octets));
                assert(decode_octets(s) is Some);
            } else {
                assert(decode_octets(s) is None);
            }
        }
        match self.read_uint(8 * octets) {
            Ok(v) => Ok((v, octets)),
            Err(e) => {
                self.read_position = start;
                Err(e)
            },
        }
    }

    /// Reads an unconstrained unsigned integer.
    pub fn read_int_max_unsigned(&mut self) -> (r: Result<u64, Error>)
        requires
            old(self).wf(),
        ensures
            final(self).wf(),
            decode_max_unsigned(old(self)@.unread()) matches Some((v, n)) ==> r == Ok::<u64, Error>(
                v as u64,
            ) && v <= u64::MAX && final(self)@ == old(self)@.skip(n),
            decode_max_unsigned(old(self)@.unread()) is None ==> (r is Err)
                && final(self)@ == old(self)@,
            r matches Err(e) ==> (e is UnsupportedOperation <==> octets_unsupported(
                old(self)@.unread(),
            )) && (e is EndOfStream <==> !octets_unsupported(old(self)@.unread())),
    {
        match self.read_octets() {
            Ok((v, _)) => Ok(v),
            Err(e) => Err(e),
        }
    }

    /// Reads an unconstrained signed integer, extending the sign of its
    /// leading octet.
    pub fn read_int_max_signed(&mut self) -> (r: Result<i64, Error>)
        requires
            old(self).wf(),
        ensures
            final(self).wf(),
            decode_max_signed(old(self)@.unread()) matches Some((v, n)) ==> r == Ok::<i64, Error>(
                v as i64,
            ) && i64::MIN <= v <= i64::MAX && final(self)@ == old(self)@.skip(n),
            decode_max_signed(old(self)@.unread()) is None ==> (r is Err)
                && final(self)@ == old(self)@,
            r matches Err(e) ==> (e is UnsupportedOperation <==> octets_unsupported(
                old(self)@.unread(),
            )) && (e is EndOfStream <==> !octets_unsupported(old(self)@.unread())),
    {
        let (raw, octets) = match self.read_octets() {
            Ok(x) => x,
            Err(e) => {
                return Err(e);
            },
        };
        let ghost s = old(self)@.unread();
        proof {
            let l = decode_octets(s).unwrap().1;
            let k = decode_length(s).unwrap().1;
            lemma_uint_value_bound(s.subrange(k as int, (k + 8 * l) as int));
            lemma2_to64();
            lemma2_to64_rest();
            assert(0 <= l <= 8);
            if l > 0 {
                lemma_pow2_unfold(8 * l);
            }
            if l < 8 {
                lemma_pow2_strictly_increases(8 * l, 64);
            }
        }
        let value: i128 = if octets > 0 && raw as u128 >= pow2_u128(8 * octets - 1) {
            raw as i128 - pow2_u128(8 * octets) as i128
        } else {
            raw as i128
        };
        Ok(value as i64)
    }
    /// Appends a normally-small integer: inline up to 63, else as an
    /// unconstrained integer, which must not exceed `i64::MAX`.
    pub fn write_int_normally_small(&mut self, value: u64) -> (r: Result<(), Error>)
        requires
            old(self).wf(),
            old(self).has_room(81),
        ensures
            final(self)@.write <= old(self)@.write + 81,
            final(self).wf(),
            value <= i64::MAX ==> r is Ok && final(self)@ == old(self)@.append(
                encode_normally_small(value),
            ),
            value > i64::MAX ==> r == Err::<(), Error>(Error::ValueExceedsMaxInt) && final(self)@
                == old(self)@,
    {
        proof {
            lemma_uint_bits_len(value as nat, 6);
        }
        if value <= NORMALLY_SMALL_INLINE_MAX {
            let _ = self.write_bit(false);
            proof {
                lemma_append_one(old(self)@, false);
                lemma_append_concat(old(self)@, seq![false], uint_bits(value as nat, 6));
            }
            self.write_uint(value, 6)
        } else if value <= i64::MAX as u64 {
            let _ = self.write_bit(true);
            proof {
                lemma_append_one(old(self)@, true);
                lemma_append_concat(old(self)@, seq![true], encode_max_unsigned(value));
            }
            self.write_int_max_unsigned(value)
        } else {
            Err(Error::ValueExceedsMaxInt)
        }
    }

    /// Reads a normally-small integer.
    pub fn read_int_normally_small(&mut self) -> (r: Result<u64, Error>)
        requires
            old(self).wf(),
        ensures
            final(self).wf(),
            decode_normally_small(old(self)@.unread()) matches Some((v, n)) ==> r == Ok::<
                u64,
                Error,
            >(v as u64) && v <= u64::MAX && final(self)@ == old(self)@.skip(n),
            decode_normally_small(old(self)@.unread()) is None ==> (r is Err)
                && final(self)@ == old(self)@,
            r matches Err(e) ==> (e is UnsupportedOperation <==> normally_small_unsupported(
                old(self)@.unread(),
            )) && (e is EndOfStream <==> !normally_small_unsupported(old(self)@.unread())),
    {
        let ghost s = old(self)@.unread();
        let start = self.read_position;
        let large = match self.read_bit() {
            Ok(b) => b,
            Err(e) => {
                return Err(e);
            },
        };
        proof {
            lemma_skip(old(self)@, 1);
            assert(self@.unread() =~= s.skip(1));
            if s.len() >= 7 {
                assert(s.skip(1).take(6) =~= s.subrange(1, 7));
                lemma_uint_value_bound(s.subrange(1, 7));
                lemma2_to64();
            }
        }
        let result = if large {
            self.read_int_max_unsigned()
        } else {
            self.read_uint(6)
        };
        if result.is_err() {
            self.read_position = start;
        }
        result
    }

    /// Appends the index of one of `no_of_default_variants` alternatives, as
    /// a constrained integer over `0..=no_of_default_variants - 1`.
    pub fn write_choice_index(&mut self, index: u64, no_of_default_variants: u64) -> (r: Result<
        (),
        Error,
    >)
        requires
            old(self).wf(),
            old(self).has_room(64),
        ensures
            final(self)@.write <= old(self)@.write + 64,
            final(self).wf(),
            index < no_of_default_variants ==> r is Ok && final(self)@ == old(self)@.append(
                encode_choice_index(index, no_of_default_variants),
            ),
            index >= no_of_default_variants ==> (r matches Err(Error::ValueNotInRange(..)))
                && final(self)@
                == old(self)@,
    {
        if index >= no_of_default_variants {
            let upper = #[verifier::truncate] ((no_of_default_variants as i128 - 1) as i64);
            let shown = #[verifier::truncate] (index as i64);
            return Err(Error::ValueNotInRange(shown, 0, upper));
        }
        let span = no_of_default_variants - 1;
        let width = 64 - span.leading_zeros();
        proof {
            lemma_leading_zeros(span);
        }
        self.write_uint(index, width as usize)
    }

    /// Reads the index of one of `no_of_default_variants` alternatives.
    pub fn read_choice_index(&mut self, no_of_default_variants: u64) -> (r: Result<u64, Error>)
        requires
            old(self).wf(),
            no_of_default_variants >= 1,
        ensures
            final(self).wf(),
            decode_choice_index(old(self)@.unread(), no_of_default_variants) matches Some((v, n))
                ==> r == Ok::<u64, Error>(v as u64) && v < no_of_default_variants && final(self)@
                == old(self)@.skip(n),
            decode_choice_index(old(self)@.unread(), no_of_default_variants) is None ==> (r is Err)
                && final(self)@ == old(self)@,
            r == Err::<u64, Error>(Error::EndOfStream) <==> old(self)@.unread().len() < bits_needed(
                (no_of_default_variants - 1) as nat,
            ),
            (r is Err)
                && old(self)@.unread().len() >= bits_needed((no_of_default_variants - 1) as nat)
                ==> (r matches Err(Error::ValueNotInRange(_, 0, _))),
    {
        let span = no_of_default_variants - 1;
        let width = 64 - span.leading_zeros();
        proof {
            lemma_leading_zeros(span);
        }
        let start = self.read_position;
        let raw = match self.read_uint(width as usize) {
            Ok(raw) => raw,
            Err(e) => {
                return Err(e);
            },
        };
        if raw > span {
            self.read_position = start;
            let shown = #[verifier::truncate] (raw as i64);
            let upper = #[verifier::truncate] (span as i64);
            return Err(Error::ValueNotInRange(shown, 0, upper));
        }
        Ok(raw)
    }

    /// Appends the index of an alternative of an extensible choice with
    /// `no_of_default_variants` known alternatives.
    pub fn write_choice_index_extensible(&mut self, index: u64, no_of_default_variants: u64) -> (r:
        Result<(), Error>)
        requires
            old(self).wf(),
            old(self).has_room(128),
        ensures
            final(self)@.write <= old(self)@.write + 82,
            final(self).wf(),
            index < no_of_default_variants || index - no_of_default_variants <= i64::MAX ==> r is Ok
                && final(self)@ == old(self)@.append(
                encode_choice_index_extensible(index, no_of_default_variants),
            ),
            !(index < no_of_default_variants || index - no_of_default_variants <= i64::MAX) ==> r
                == Err::<(), Error>(Error::ValueExceedsMaxInt) && final(self)@ == old(self)@,
    {
        if index >= no_of_default_variants {
            let rest = index - no_of_default_variants;
            if rest > i64::MAX as u64 {
                return Err(Error::ValueExceedsMaxInt);
            }
            let _ = self.write_bit(true);
            proof {
                lemma_append_one(old(self)@, true);
                lemma_append_concat(old(self)@, seq![true], encode_normally_small(rest));
                lemma_normally_small_len(rest);
            }
            self.write_int_normally_small(rest)
        } else {
            let _ = self.write_bit(false);
            proof {
                lemma_append_one(old(self)@, false);
                lemma_append_concat(
                    old(self)@,
                    seq![false],
                    encode_choice_index(index, no_of_default_variants),
                );
            }
            self.write_choice_index(index, no_of_default_variants)
        }
    }

    /// Reads the index of an alternative of an extensible choice with
    /// `no_of_default_variants` known alternatives.
    pub fn read_choice_index_extensible(&mut self, no_of_default_variants: u64) -> (r: Result<
        u64,
        Error,
    >)
        requires
            old(self).wf(),
            no_of_default_variants >= 1,
        ensures
            final(self).wf(),
            decode_choice_index_extensible(old(self)@.unread(), no_of_default_variants) matches Some(
                (v, n),
            ) ==> r == Ok::<u64, Error>(v as u64) && v <= u64::MAX
                && final(self)@ == old(self)@.skip(n),
            decode_choice_index_extensible(old(self)@.unread(), no_of_default_variants) is None ==>
                (
            r is Err) && final(self)@ == old(self)@,
            r matches Err(e) ==> choice_index_extensible_error(
                old(self)@.unread(),
                no_of_default_variants,
                e,
            ),
    {
        let ghost s = old(self)@.unread();
        let start = self.read_position;
        let extended = match self.read_bit() {
            Ok(b) => b,
            Err(e) => {
                return Err(e);
            },
        };
        proof {
            lemma_skip(old(self)@, 1);
            assert(self@.unread() =~= s.skip(1));
        }
        if extended {
            match self.read_int_normally_small() {
                Ok(v) => {
                    if v > u64::MAX - no_of_default_variants {
                        self.read_position = start;
                        Err(Error::ValueExceedsMaxInt)
                    } else {
                        Ok(v + no_of_default_variants)
                    }
                },
                Err(e) => {
                    self.read_position = start;
                    Err(e)
                },
            }
        } else {
            match self.read_choice_index(no_of_default_variants) {
                Ok(v) => Ok(v),
                Err(e) => {
                    self.read_position = start;
                    Err(e)
                },
            }
        }
    }
    /// Appends an octet string: its length as a constrained integer over
    /// `length_range` where one is given, else as a length determinant; then
    /// its bytes.
    pub fn write_octet_string(&mut self, string: &[u8], length_range: Option<(i64, i64)>) -> (r:
        Result<(), Error>)
        requires
            old(self).wf(),
            old(self).has_room(64 + 8 * string@.len() as int),
        ensures
            final(self)@.write <= old(self)@.write + 64 + 8 * string@.len(),
            final(self).wf(),
            octet_length_fits(string@.len(), length_range) ==> r is Ok
                && final(self)@ == old(self)@.append(encode_octet_string(string@, length_range)),
            !octet_length_fits(string@.len(), length_range) ==> final(self)@ == old(self)@ && match
            length_range {
                Some((lower, upper)) => r == Err::<(), Error>(
                    Error::ValueNotInRange(string@.len() as i64, lower, upper),
                ),
                None => r matches Err(Error::UnsupportedOperation(_)),
            },
    {
        let len = string.len();
        proof {
            lemma_encode_length_len(len as nat);
            if let Some((lower, upper)) = length_range {
                lemma_range_width_bound(lower, upper);
                lemma_uint_bits_len(((len as i64) - lower) as nat, range_width(lower, upper));
            }
        }
        match length_range {
            Some((lower, upper)) => {
                if let Err(e) = self.write_int(len as i64, (lower, upper)) {
                    return Err(e);
                }
            },
            None => {
                if let Err(e) = self.write_length_determinant(len) {
                    return Err(e);
                }
            },
        }
        proof {
            let p = octet_length_prefix(len as nat, length_range);
            lemma_append(old(self)@, p);
            lemma_append_concat(old(self)@, p, bits_of(string@, 0, 8 * len));
        }
        self.write_bit_string_till_end(string, 0)
    }

    /// Reads the length of an octet string under `length_range`.
    fn read_octet_length(&mut self, length_range: Option<(i64, i64)>) -> (r: Result<u64, Error>)
        requires
            old(self).wf(),
            length_range matches Some((lower, upper)) ==> lower <= upper,
        ensures
            final(self).wf(),
            decode_octet_length(old(self)@.unread(), length_range) matches Some((v, n)) ==> r
                == Ok::<u64, Error>(v as u64) && v <= u64::MAX
                    && final(self)@ == old(self)@.skip(n),
            decode_octet_length(old(self)@.unread(), length_range) is None ==> (r is Err)
                && final(self)@ == old(self)@,
            r matches Err(e) ==> octet_length_error(old(self)@.unread(), length_range, e),
    {
        let start = self.read_position;
        match length_range {
            Some((lower, upper)) => match self.read_int((lower, upper)) {
                Ok(v) => {
                    if v < 0 {
                        self.read_position = start;
                        Err(Error::ValueNotInRange(v, lower, upper))
                    } else {
                        Ok(v as u64)
                    }
                },
                Err(e) => Err(e),
            },
            None => match self.read_length_determinant() {
                Ok(l) => {
                    proof {
                        lemma_decode_length_bound(old(self)@.unread());
                    }
                    Ok(l as u64)
                },
                Err(e) => Err(e),
            },
        }
    }

    /// Reads an octet string written under the same `length_range`.
    pub fn read_octet_string(&mut self, length_range: Option<(i64, i64)>) -> (r: Result<
        Vec<u8>,
        Error,
    >)
        requires
            old(self).wf(),
            length_range matches Some((lower, upper)) ==> lower <= upper,
        ensures
            final(self).wf(),
            decode_octet_string(old(self)@.unread(), length_range) matches Some((l, n)) ==>
                (r matches Ok(
                v,
            ) && v@.len() == l && bits_of(v@, 0, (8 * l) as int) == old(self)@.unread().subrange(
                n - 8 * l,
                n as int,
            )) && final(self)@ == old(self)@.skip(n),
            decode_octet_string(old(self)@.unread(), length_range) is None ==> (r is Err)
                && final(self)@ == old(self)@,
            r matches Err(e) ==> octet_length_error(old(self)@.unread(), length_range, e),
    {
        let ghost s = old(self)@.unread();
        let start = self.read_position;
        let len = match self.read_octet_length(length_range) {
            Ok(l) => l,
            Err(e) => {
                return Err(e);
            },
        };
        if ((self.write_position - self.read_position) as u128) < len as u128 * 8 {
            self.read_position = start;
            return Err(Error::EndOfStream);
        }
        let ghost mid = self@;
        let mut bytes = zeroed(len as usize);
        proof {
            let k = decode_octet_length(s, length_range).unwrap().1;
            lemma_skip(old(self)@, k);
            assert(mid.unread() =~= s.skip(k as int));
            assert(mid.unread().take(8 * len) =~= s.subrange(k as int, k + 8 * len));
        }
        let _ = self.read_bit_string_till_end(bytes.as_mut_slice(), 0);
        proof {
            let k = decode_octet_length(s, length_range).unwrap().1;
            assert forall|i: int| 0 <= i < 8 * len implies #[trigger] bits_of(bytes@, 0, 8 * len)[i]
                == s.subrange(k as int, k + 8 * len)[i] by {
                assert(bit_at(bytes@, i) == mid.unread().take(8 * len)[i]);
            }
            assert(bits_of(bytes@, 0, 8 * len) =~= s.subrange(k as int, k + 8 * len));
        }
        Ok(bytes)
    }

    /// Appends a UTF-8 string as the octet string of its bytes.
    pub fn write_utf8_string(&mut self, value: &str) -> (r: Result<(), Error>)
        requires
            old(self).wf(),
            old(self).has_room(64 + 8 * value.spec_bytes().len() as int),
        ensures
            final(self)@.write <= old(self)@.write + 64 + 8 * value.spec_bytes().len(),
            final(self).wf(),
            value.spec_bytes().len() <= LENGTH_LONG_MAX ==> r is Ok
                && final(self)@ == old(self)@.append(encode_octet_string(value.spec_bytes(), None)),
            value.spec_bytes().len() > LENGTH_LONG_MAX ==> (r matches Err(
                Error::UnsupportedOperation(_),
            )) && final(self)@ == old(self)@,
    {
        self.write_octet_string(value.as_bytes(), None)
    }

    /// Reads a UTF-8 string written as an octet string.
    pub fn read_utf8_string(&mut self) -> (r: Result<String, Error>)
        requires
            old(self).wf(),
        ensures
            final(self).wf(),
            decode_octet_string(old(self)@.unread(), None) matches Some((l, n)) ==> (r is Ok
                <==> block_is_utf8(old(self)@.unread(), l, n)),
            decode_octet_string(old(self)@.unread(), None) matches Some((l, n)) ==> ((r matches Ok(
                v,
            ) ==> encode_utf8(v@).len() == l && bits_of(encode_utf8(v@), 0, (8 * l) as int)
                == old(self)@.unread().subrange(n - 8 * l, n as int)
                    && final(self)@ == old(self)@.skip(n)) && (r matches Err(e) ==>
                    e == Error::InvalidUtf8String && final(self)@
                == old(self)@)),
            decode_octet_string(old(self)@.unread(), None) is None ==> (r is Err) && final(self)@
                == old(self)@ && (r matches Err(e)
                    && octet_length_error(old(self)@.unread(), None, e)),
    {
        let start = self.read_position;
        let bytes = match self.read_octet_string(None) {
            Ok(b) => b,
            Err(e) => {
                return Err(e);
            },
        };
        let ghost read = bytes@;
        proof {
            let s = old(self)@.unread();
            let (l, n) = decode_octet_string(s, None).unwrap();
            assert forall|b: Seq<u8>|
                b.len() == l && #[trigger] bits_of(b, 0, 8 * l as int) == s.subrange(
                    n - 8 * l,
                    n as int,
                ) implies b == read by {
                law_bytes_from_bits(b, read);
            }
            if valid_utf8(read) {
                assert(bits_of(read, 0, 8 * l as int) == s.subrange(n - 8 * l, n as int));
            }
        }
        match string_from_utf8(bytes) {
            Some(s) => Ok(s),
            None => {
                self.read_position = start;
                Err(Error::InvalidUtf8String)
            },
        }
    }

    /// Appends a bit string of `bit_length` bits taken from the start of
    /// `src`, after its length in bits as a length determinant.
    pub fn write_bitstring(&mut self, src: &[u8], bit_length: usize) -> (r: Result<(), Error>)
        requires
            old(self).wf(),
            old(self).has_room(16 + bit_length),
        ensures
            final(self)@.write <= old(self)@.write + 16 + bit_length,
            final(self).wf(),
            bit_length <= LENGTH_LONG_MAX && bit_length <= src@.len() * 8 ==> r is Ok
                && final(self)@ == old(self)@.append(
                encode_bitstring(bits_of(src@, 0, bit_length as int)),
            ),
            bit_length > LENGTH_LONG_MAX ==> (r matches Err(Error::UnsupportedOperation(_)))
                && final(self)@ == old(self)@,
            bit_length <= LENGTH_LONG_MAX && bit_length > src@.len() * 8 ==> r == Err::<(), Error>(
                Error::InsufficientDataInSourceBuffer,
            ) && final(self)@ == old(self)@,
    {
        if bit_length <= LENGTH_LONG_MAX && bit_length as u128 > src.len() as u128 * 8 {
            return Err(Error::InsufficientDataInSourceBuffer);
        }
        proof {
            lemma_encode_length_len(bit_length as nat);
        }
        if let Err(e) = self.write_length_determinant(bit_length) {
            return Err(e);
        }
        proof {
            let b = bits_of(src@, 0, bit_length as int);
            lemma_encode_length_len(bit_length as nat);
            lemma_append(old(self)@, encode_length(bit_length as nat));
            lemma_append_concat(old(self)@, encode_length(bit_length as nat), b);
        }
        self.write_bit_string(src, 0, bit_length)
    }

    /// Reads a bit string: its bytes, with the bits past its length clear,
    /// and its length in bits.
    pub fn read_bitstring(&mut self) -> (r: Result<(Vec<u8>, usize), Error>)
        requires
            old(self).wf(),
        ensures
            final(self).wf(),
            decode_bitstring(old(self)@.unread()) matches Some((l, n)) ==> (r matches Ok((v, len))
                && len == l && v@.len() == (l + 7) / 8 && spliced(
                Seq::new(((l + 7) / 8) as nat, |_i: int| 0u8),
                v@,
                0,
                old(self)@.unread().subrange(n - l, n as int),
            )) && final(self)@ == old(self)@.skip(n),
            decode_bitstring(old(self)@.unread()) is None ==> (r is Err)
                && final(self)@ == old(self)@,
            r matches Err(e) ==> octet_length_error(old(self)@.unread(), None, e),
    {
        let ghost s = old(self)@.unread();
        let start = self.read_position;
        let len = match self.read_length_determinant() {
            Ok(l) => l,
            Err(e) => {
                return Err(e);
            },
        };
        proof {
            lemma_decode_length_bound(s);
        }
        if self.write_position - self.read_position < len {
            self.read_position = start;
            return Err(Error::EndOfStream);
        }
        let ghost mid = self@;
        let mut bytes = zeroed((len + 7) / 8);
        proof {
            let k = decode_length(s).unwrap().1;
            lemma_skip(old(self)@, k);
            assert(mid.unread() =~= s.skip(k as int));
            assert(mid.unread().take(len as int) =~= s.subrange(k as int, k + len));
        }
        let _ = self.read_bit_string(bytes.as_mut_slice(), 0, len);
        Ok((bytes, len))
    }

    /// Appends the content of `inner`, a buffer that an inner encoding was
    /// written to, as an opaque block: its byte count as a length
    /// determinant, then all of its bytes. The inner encoding is made by the
    /// caller into a scratch buffer first, rather than by a callback, since
    /// the length must be known before the content is emitted.
    pub fn write_substring_with_length_determinant_prefix(&mut self, inner: &BitBuffer) -> (r:
        Result<(), Error>)
        requires
            old(self).wf(),
            old(self).has_room(64 + 8 * inner@.storage.len() as int),
        ensures
            final(self)@.write <= old(self)@.write + 64 + 8 * inner@.storage.len(),
            final(self).wf(),
            inner@.storage.len() <= LENGTH_LONG_MAX ==> r is Ok
                && final(self)@ == old(self)@.append(encode_octet_string(inner@.storage, None)),
            inner@.storage.len() > LENGTH_LONG_MAX ==> (r matches Err(
                Error::UnsupportedOperation(_),
            )) && final(self)@ == old(self)@,
    {
        self.write_octet_string(inner.content(), None)
    }

    /// Reads an opaque block written with a length-determinant prefix and
    /// hands it out as a buffer of its own, read from its start and holding
    /// exactly the block's bits.
    pub fn read_substring_with_length_determinant_prefix(&mut self) -> (r: Result<
        BitBuffer,
        Error,
    >)
        requires
            old(self).wf(),
        ensures
            final(self).wf(),
            decode_octet_string(old(self)@.unread(), None) matches Some((l, n)) ==> (r matches Ok(
                inner,
            ) && inner.wf() && inner@.read == 0 && inner@.write == 8 * l && inner@.storage.len()
                == l && inner@.bits()
                == old(self)@.unread().subrange(n - 8 * l, n as int))
                    && final(self)@ == old(self)@.skip(n),
            decode_octet_string(old(self)@.unread(), None) is None ==> (r is Err) && final(self)@
                == old(self)@,
            r matches Err(e) ==> octet_length_error(old(self)@.unread(), None, e),
    {
        let bytes = match self.read_octet_string(None) {
            Ok(b) => b,
            Err(e) => {
                return Err(e);
            },
        };
        proof {
            lemma_decode_length_bound(old(self)@.unread());
        }
        Ok(BitBuffer::from_bytes(bytes))
    }
}

} // verus!
