//! The abstract state of a bit buffer and how appending and reading change
//! it.
use crate::bits::{bit_at, bits_of, lemma_with_bit, with_bit};
use vstd::prelude::*;

verus! {

/// The abstract state of a bit buffer: its byte storage, the number of
/// committed bits, and the read cursor, both counted in bits.
pub struct BufferState {
    pub storage: Seq<u8>,
    pub write: nat,
    pub read: nat,
}

impl BufferState {
    pub open spec fn wf(self) -> bool {
        self.read <= self.write <= self.storage.len() * 8
    }

    /// The committed bits, in order.
    pub open spec fn bits(self) -> Seq<bool> {
        bits_of(self.storage, 0, self.write as int)
    }

    /// The committed bits that have not been read yet.
    pub open spec fn unread(self) -> Seq<bool> {
        self.bits().subrange(self.read as int, self.write as int)
    }

    /// The state after appending one bit: storage grows by a zero byte when
    /// the write position reaches its end, then the bit is set or cleared.
    pub open spec fn push_bit(self, b: bool) -> BufferState {
        let grown = if self.write >= self.storage.len() * 8 {
            self.storage.push(0u8)
        } else {
            self.storage
        };
        let i = self.write / 8;
        BufferState {
            storage: grown.update(i as int, with_bit(grown[i as int], (self.write % 8) as int, b)),
            write: self.write + 1,
            read: self.read,
        }
    }

    /// The state after appending a bit sequence, one bit at a time.
    pub open spec fn append(self, s: Seq<bool>) -> BufferState
        decreases s.len(),
    {
        if s.len() == 0 {
            self
        } else {
            self.append(s.drop_last()).push_bit(s.last())
        }
    }

    /// The state after reading `n` more bits.
    pub open spec fn skip(self, n: nat) -> BufferState {
        BufferState { read: self.read + n, ..self }
    }
}

pub proof fn lemma_push_bit(st: BufferState, b: bool)
    requires
        st.wf(),
    ensures
        st.push_bit(b).wf(),
        st.push_bit(b).bits() =~= st.bits().push(b),
{
    let nx = st.push_bit(b);
    let w = st.write as int;
    assert forall|i: int| 0 <= i < nx.write implies bit_at(nx.storage, i) == st.bits().push(b)[i] by {
        if i / 8 == w / 8 {
            let byte = if st.write >= st.storage.len() * 8 { 0u8 } else { st.storage[w / 8] };
            lemma_with_bit(byte, (i % 8) as u8, (w % 8) as u8, b);
            if i < w {
                assert(st.storage[i / 8] == byte);
            }
        } else {
            assert(i < w);
        }
    }
}

/// Appending a bit sequence appends exactly those bits.
pub proof fn lemma_append(st: BufferState, s: Seq<bool>)
    requires
        st.wf(),
    ensures
        st.append(s).wf(),
        st.append(s).bits() =~= st.bits() + s,
        st.append(s).write == st.write + s.len(),
        st.append(s).read == st.read,
        st.append(s).unread() =~= st.unread() + s,
    decreases s.len(),
{
    if s.len() > 0 {
        lemma_append(st, s.drop_last());
        lemma_push_bit(st.append(s.drop_last()), s.last());
        assert(s =~= s.drop_last().push(s.last()));
    }
}

/// Appending two sequences in turn is appending their concatenation.
pub proof fn lemma_append_concat(st: BufferState, s: Seq<bool>, t: Seq<bool>)
    ensures
        st.append(s).append(t) == st.append(s + t),
    decreases t.len(),
{
    if t.len() > 0 {
        lemma_append_concat(st, s, t.drop_last());
        assert((s + t).drop_last() =~= s + t.drop_last());
    } else {
        assert(s + t =~= s);
    }
}

/// Appending a single bit is pushing it.
pub proof fn lemma_append_one(st: BufferState, b: bool)
    ensures
        st.append(seq![b]) == st.push_bit(b),
{
    assert(seq![b].drop_last() =~= Seq::<bool>::empty());
    assert(st.append(Seq::<bool>::empty()) == st);
}

/// A byte rebuilt from zero by setting its bits one at a time, most
/// significant first: after `j` steps, the first `j` bits of `b`.
pub open spec fn partial_byte(b: u8, j: nat) -> u8
    decreases j,
{
    if j == 0 {
        0u8
    } else {
        with_bit(partial_byte(b, (j - 1) as nat), j - 1, bit_at(seq![b], j - 1))
    }
}

pub proof fn lemma_partial_byte_full(b: u8)
    ensures
        partial_byte(b, 8) == b,
{
    reveal_with_fuel(partial_byte, 9);
    let b0 = (b >> 7u8) & 1u8 == 1u8;
    let b1 = (b >> 6u8) & 1u8 == 1u8;
    let b2 = (b >> 5u8) & 1u8 == 1u8;
    let b3 = (b >> 4u8) & 1u8 == 1u8;
    let b4 = (b >> 3u8) & 1u8 == 1u8;
    let b5 = (b >> 2u8) & 1u8 == 1u8;
    let b6 = (b >> 1u8) & 1u8 == 1u8;
    let b7 = (b >> 0u8) & 1u8 == 1u8;
    assert(bit_at(seq![b], 0) == b0 && bit_at(seq![b], 1) == b1 && bit_at(seq![b], 2) == b2
        && bit_at(seq![b], 3) == b3 && bit_at(seq![b], 4) == b4 && bit_at(seq![b], 5) == b5
        && bit_at(seq![b], 6) == b6 && bit_at(seq![b], 7) == b7);
    assert(with_bit(
        with_bit(
            with_bit(
                with_bit(
                    with_bit(
                        with_bit(with_bit(with_bit(0u8, 0, b0), 1, b1), 2, b2),
                        3,
                        b3,
                    ),
                    4,
                    b4,
                ),
                5,
                b5,
            ),
            6,
            b6,
        ),
        7,
        b7,
    ) == b) by (bit_vector)
        requires
            b0 == ((b >> 7u8) & 1u8 == 1u8),
            b1 == ((b >> 6u8) & 1u8 == 1u8),
            b2 == ((b >> 5u8) & 1u8 == 1u8),
            b3 == ((b >> 4u8) & 1u8 == 1u8),
            b4 == ((b >> 3u8) & 1u8 == 1u8),
            b5 == ((b >> 2u8) & 1u8 == 1u8),
            b6 == ((b >> 1u8) & 1u8 == 1u8),
            b7 == ((b >> 0u8) & 1u8 == 1u8),
    ;
}

/// Appending the bits of a byte at a byte boundary at the end of the store
/// pushes that byte.
pub proof fn lemma_append_byte_steps(st: BufferState, b: u8, j: nat)
    requires
        st.wf(),
        st.write == st.storage.len() * 8,
        1 <= j <= 8,
    ensures
        st.append(bits_of(seq![b], 0, 8).take(j as int)) == (BufferState {
            storage: st.storage.push(partial_byte(b, j)),
            write: st.write + j,
            read: st.read,
        }),
    decreases j,
{
    let s = bits_of(seq![b], 0, 8);
    assert(s.take(j as int).drop_last() =~= s.take(j - 1));
    if j == 1 {
        assert(s.take(0) =~= Seq::<bool>::empty());
        assert(st.append(Seq::<bool>::empty()) == st);
        assert(st.storage.push(0u8).update(st.storage.len() as int, partial_byte(b, 1))
            =~= st.storage.push(partial_byte(b, 1)));
    } else {
        lemma_append_byte_steps(st, b, (j - 1) as nat);
        let prev = st.storage.push(partial_byte(b, (j - 1) as nat));
        assert((st.write + j - 1) / 8 == st.storage.len());
        assert((st.write + j - 1) % 8 == j - 1);
        assert(prev.update(st.storage.len() as int, partial_byte(b, j)) =~= st.storage.push(
            partial_byte(b, j),
        ));
    }
}

/// Reading on from a later position sees the rest of what was unread.
pub proof fn lemma_skip(st: BufferState, n: nat)
    requires
        st.wf(),
        st.read + n <= st.write,
    ensures
        st.skip(n).wf(),
        st.skip(n).unread() =~= st.unread().skip(n as int),
{
}

} // verus!
