//! Packing single bits into bytes and unpacking bytes into single bits,
//! most significant bit first.

use vstd::prelude::*;

verus! {

/// The bit of `byte` at `position`, where position 0 is the most significant bit.
pub open spec fn bit_at(byte: u8, position: int) -> u8 {
    (byte >> ((7 - position) as u8)) & 1u8
}

/// The eight bits of `byte`, most significant first.
pub open spec fn bits_of(byte: u8) -> Seq<u8> {
    Seq::new(8, |i: int| bit_at(byte, i))
}

/// The bits of a sequence of bytes, in stream order.
pub open spec fn bits_of_bytes(bytes: Seq<u8>) -> Seq<u8> {
    Seq::new(8 * bytes.len(), |i: int| bit_at(bytes[i / 8], i % 8))
}

proof fn lemma_or_bit(byte: u8, bit: u8, idx: u8, other: u8)
    by (bit_vector)
    requires
        bit <= 1,
        idx < 8,
        other < 8,
        (byte >> idx) & 1u8 == 0,
    ensures
        ((byte | (bit << idx)) >> idx) & 1u8 == bit,
        other != idx ==> ((byte | (bit << idx)) >> other) & 1u8 == (byte >> other) & 1u8,
{
}

proof fn lemma_zero_bits(idx: u8)
    by (bit_vector)
    requires
        idx < 8,
    ensures
        (0u8 >> idx) & 1u8 == 0,
{
}

proof fn lemma_bit_range(byte: u8, idx: u8)
    by (bit_vector)
    requires
        idx < 8,
    ensures
        (byte >> idx) & 1u8 <= 1,
{
}

proof fn lemma_same_bits(a: u8, b: u8)
    by (bit_vector)
    requires
        (a >> 0u8) & 1u8 == (b >> 0u8) & 1u8,
        (a >> 1u8) & 1u8 == (b >> 1u8) & 1u8,
        (a >> 2u8) & 1u8 == (b >> 2u8) & 1u8,
        (a >> 3u8) & 1u8 == (b >> 3u8) & 1u8,
        (a >> 4u8) & 1u8 == (b >> 4u8) & 1u8,
        (a >> 5u8) & 1u8 == (b >> 5u8) & 1u8,
        (a >> 6u8) & 1u8 == (b >> 6u8) & 1u8,
        (a >> 7u8) & 1u8 == (b >> 7u8) & 1u8,
    ensures
        a == b,
{
}

/// Every entry of `bits_of` is 0 or 1.
pub proof fn lemma_bits_are_bits(byte: u8)
    ensures
        forall|i: int| 0 <= i < 8 ==> #[trigger] bits_of(byte)[i] <= 1,
{
    assert forall|i: int| 0 <= i < 8 implies #[trigger] bits_of(byte)[i] <= 1 by {
        lemma_bit_range(byte, (7 - i) as u8);
    }
}

/// A byte is determined by its bits: two bytes with the same bits are equal.
pub proof fn lemma_bits_determine_byte(a: u8, b: u8)
    requires
        bits_of(a) == bits_of(b),
    ensures
        a == b,
{
    assert forall|i: int| 0 <= i < 8 implies bit_at(a, i) == bit_at(b, i) by {
        assert(bits_of(a)[i] == bit_at(a, i));
        assert(bits_of(b)[i] == bit_at(b, i));
    }
    assert(bit_at(a, 7) == bit_at(b, 7));
    assert(bit_at(a, 6) == bit_at(b, 6));
    assert(bit_at(a, 5) == bit_at(b, 5));
    assert(bit_at(a, 4) == bit_at(b, 4));
    assert(bit_at(a, 3) == bit_at(b, 3));
    assert(bit_at(a, 2) == bit_at(b, 2));
    assert(bit_at(a, 1) == bit_at(b, 1));
    assert(bit_at(a, 0) == bit_at(b, 0));
    lemma_same_bits(a, b);
}

/// Appending a byte appends its eight bits.
pub proof fn lemma_bits_of_bytes_push(bytes: Seq<u8>, byte: u8)
    ensures
        bits_of_bytes(bytes.push(byte)) == bits_of_bytes(bytes) + bits_of(byte),
{
    let left = bits_of_bytes(bytes.push(byte));
    let right = bits_of_bytes(bytes) + bits_of(byte);
    assert(left.len() == right.len());
    assert forall|i: int| 0 <= i < left.len() implies left[i] == right[i] by {
        if i < 8 * bytes.len() {
            assert(bytes.push(byte)[i / 8] == bytes[i / 8]);
        } else {
            assert(i / 8 == bytes.len());
            assert(i % 8 == i - 8 * bytes.len());
            assert(right[i] == bits_of(byte)[i - 8 * bytes.len()]);
        }
    }
    assert(left =~= right);
}

/// The bits of a run of bytes start with the eight bits of its first byte.
pub proof fn lemma_bits_of_bytes_first(bytes: Seq<u8>)
    requires
        bytes.len() > 0,
    ensures
        bits_of_bytes(bytes) == bits_of(bytes[0]) + bits_of_bytes(bytes.drop_first()),
{
    let left = bits_of_bytes(bytes);
    let right = bits_of(bytes[0]) + bits_of_bytes(bytes.drop_first());
    assert(left.len() == right.len());
    assert forall|i: int| 0 <= i < left.len() implies left[i] == right[i] by {
        if i < 8 {
            assert(i / 8 == 0 && i % 8 == i);
            assert(right[i] == bits_of(bytes[0])[i]);
        } else {
            assert((i - 8) / 8 == i / 8 - 1);
            assert((i - 8) % 8 == i % 8);
            assert(right[i] == bits_of_bytes(bytes.drop_first())[i - 8]);
            assert(bytes.drop_first()[(i - 8) / 8] == bytes[i / 8]);
        }
    }
    assert(left =~= right);
}

/// The byte whose bits, most significant first, are `bits`; positions past the
/// end of `bits` count as zero.
pub open spec fn packed(bits: Seq<u8>) -> int {
    padded(bits, 0) * 128 + padded(bits, 1) * 64 + padded(bits, 2) * 32 + padded(bits, 3) * 16
        + padded(bits, 4) * 8 + padded(bits, 5) * 4 + padded(bits, 6) * 2 + padded(bits, 7)
}

/// The bit at `position` of `bits`, or zero past its end.
pub open spec fn padded(bits: Seq<u8>, position: int) -> int {
    if 0 <= position < bits.len() {
        bits[position] as int
    } else {
        0
    }
}

/// Whether every entry of `bits` is 0 or 1.
pub open spec fn all_bits(bits: Seq<u8>) -> bool {
    forall|i: int| 0 <= i < bits.len() ==> #[trigger] bits[i] <= 1
}

proof fn lemma_weights(byte: u8)
    by (bit_vector)
    ensures
        ((byte >> 7u8) & 1u8) * 128 + ((byte >> 6u8) & 1u8) * 64 + ((byte >> 5u8) & 1u8) * 32 + ((byte
            >> 4u8) & 1u8) * 16 + ((byte >> 3u8) & 1u8) * 8 + ((byte >> 2u8) & 1u8) * 4 + ((byte
            >> 1u8) & 1u8) * 2 + ((byte >> 0u8) & 1u8) == byte,
{
}

/// Packing the bits of a byte gives the byte back.
pub proof fn lemma_pack_unpack(byte: u8)
    ensures
        packed(bits_of(byte)) == byte,
{
    lemma_weights(byte);
    assert(bits_of(byte).len() == 8);
    assert(padded(bits_of(byte), 0) == bit_at(byte, 0));
    assert(padded(bits_of(byte), 1) == bit_at(byte, 1));
    assert(padded(bits_of(byte), 2) == bit_at(byte, 2));
    assert(padded(bits_of(byte), 3) == bit_at(byte, 3));
    assert(padded(bits_of(byte), 4) == bit_at(byte, 4));
    assert(padded(bits_of(byte), 5) == bit_at(byte, 5));
    assert(padded(bits_of(byte), 6) == bit_at(byte, 6));
    assert(padded(bits_of(byte), 7) == bit_at(byte, 7));
}

/// Eight bits are the bits of the byte they pack to.
pub proof fn lemma_unpack_pack(bits: Seq<u8>)
    requires
        bits.len() == 8,
        all_bits(bits),
    ensures
        0 <= packed(bits) < 256,
        bits_of(packed(bits) as u8) == bits,
{
    assert(bits[0] <= 1 && bits[1] <= 1 && bits[2] <= 1 && bits[3] <= 1);
    assert(bits[4] <= 1 && bits[5] <= 1 && bits[6] <= 1 && bits[7] <= 1);
    let byte = packed(bits) as u8;
    lemma_weights(byte);
    assert forall|i: int| 0 <= i < 8 implies #[trigger] bits_of(byte)[i] <= 1 by {
        lemma_bit_range(byte, (7 - i) as u8);
    }
    let other = bits_of(byte);
    assert(other[0] <= 1 && other[1] <= 1 && other[2] <= 1 && other[3] <= 1);
    assert(other[4] <= 1 && other[5] <= 1 && other[6] <= 1 && other[7] <= 1);
    assert(other[0] == bit_at(byte, 0) && other[1] == bit_at(byte, 1));
    assert(other[2] == bit_at(byte, 2) && other[3] == bit_at(byte, 3));
    assert(other[4] == bit_at(byte, 4) && other[5] == bit_at(byte, 5));
    assert(other[6] == bit_at(byte, 6) && other[7] == bit_at(byte, 7));
    assert(packed(other) == byte);
    assert(bits_of(byte) =~= bits);
}

/// An eight-bit window that collects bits from the most significant position
/// down and hands the byte over once it is full.
#[derive(Debug)]
pub struct BitOutputStream {
    buffer_byte: u8,
    buffer_idx: u8,
}

impl BitOutputStream {
    #[verifier::type_invariant]
    spec fn well_formed(self) -> bool {
        &&& self.buffer_idx < 8
        &&& forall|k: u8| k <= self.buffer_idx ==> (self.buffer_byte >> k) & 1u8 == 0
    }

    /// The bits written since the last byte was handed over, oldest first.
    pub closed spec fn pending(self) -> Seq<u8> {
        Seq::new((7 - self.buffer_idx) as nat, |i: int| bit_at(self.buffer_byte, i))
    }

    /// An empty window.
    pub fn new() -> (stream: BitOutputStream)
        ensures
            stream.pending() == Seq::<u8>::empty(),
    {
        proof {
            assert forall|k: u8| k <= 7 implies (0u8 >> k) & 1u8 == 0 by {
                lemma_zero_bits(k);
            }
        }
        BitOutputStream { buffer_byte: 0, buffer_idx: 7 }
    }

    /// Appends `bit` to the window. The eighth bit completes a byte, which is
    /// returned for the caller to send on; the window is then empty again.
    pub fn write(&mut self, bit: u8) -> (flushed: Option<u8>)
        requires
            bit <= 1,
        ensures
            final(self).pending().len() < 8,
            old(self).pending().len() < 7 ==> {
                &&& flushed is None
                &&& final(self).pending() == old(self).pending().push(bit)
            },
            old(self).pending().len() >= 7 ==> {
                &&& flushed is Some
                &&& flushed->0 == packed(old(self).pending().push(bit))
                &&& bits_of(flushed->0) == old(self).pending().push(bit)
                &&& final(self).pending() == Seq::<u8>::empty()
            },
    {
        proof {
            use_type_invariant(&*self);
        }
        let ghost before = *self;
        let idx = self.buffer_idx;
        let byte = self.buffer_byte | (bit << idx);
        proof {
            assert forall|k: u8| k < 8 implies ((byte >> k) & 1u8) == (if k == idx {
                bit
            } else {
                (before.buffer_byte >> k) & 1u8
            }) by {
                lemma_or_bit(before.buffer_byte, bit, idx, k);
            }
        }
        if idx == 0 {
            proof {
                assert forall|k: u8| k <= 7 implies (0u8 >> k) & 1u8 == 0 by {
                    lemma_zero_bits(k);
                }
            }
            *self = BitOutputStream { buffer_byte: 0, buffer_idx: 7 };
            proof {
                assert(bits_of(byte) =~= before.pending().push(bit)) by {
                    assert forall|i: int| 0 <= i < 8 implies bits_of(byte)[i] == before.pending().push(
                        bit,
                    )[i] by {
                        let k = (7 - i) as u8;
                        assert((byte >> k) & 1u8 == if k == idx {
                            bit
                        } else {
                            (before.buffer_byte >> k) & 1u8
                        });
                    }
                }
                assert(self.pending() =~= Seq::<u8>::empty());
                lemma_pack_unpack(byte);
            }
            Some(byte)
        } else {
            *self = BitOutputStream { buffer_byte: byte, buffer_idx: idx - 1 };
            proof {
                assert(self.pending() =~= before.pending().push(bit)) by {
                    assert forall|i: int| 0 <= i < 8 - idx implies self.pending()[i]
                        == before.pending().push(bit)[i] by {
                        let k = (7 - i) as u8;
                        assert((byte >> k) & 1u8 == if k == idx {
                            bit
                        } else {
                            (before.buffer_byte >> k) & 1u8
                        });
                    }
                }
            }
            None
        }
    }

    /// Hands over the bits written since the last completed byte, as a byte
    /// with zeros behind them, and empties the window. With no such bit there
    /// is nothing to hand over.
    pub fn flush(&mut self) -> (flushed: Option<u8>)
        ensures
            final(self).pending() == Seq::<u8>::empty(),
            old(self).pending().len() == 0 ==> flushed is None,
            old(self).pending().len() > 0 ==> flushed == Some(packed(old(self).pending()) as u8),
    {
        proof {
            use_type_invariant(&*self);
        }
        let ghost before = *self;
        let byte = self.buffer_byte;
        let idx = self.buffer_idx;
        proof {
            assert forall|k: u8| k <= 7 implies (0u8 >> k) & 1u8 == 0 by {
                lemma_zero_bits(k);
            }
        }
        *self = BitOutputStream { buffer_byte: 0, buffer_idx: 7 };
        proof {
            assert(self.pending() =~= Seq::<u8>::empty());
        }
        if idx == 7 {
            None
        } else {
            proof {
                lemma_pack_unpack(byte);
                let bits = before.pending();
                assert forall|i: int| 0 <= i < 8 implies padded(bits, i) == padded(
                    bits_of(byte),
                    i,
                ) by {
                    assert(bits_of(byte)[i] == bit_at(byte, i));
                    if i >= bits.len() {
                        let k = (7 - i) as u8;
                        assert(k <= idx);
                        assert((byte >> k) & 1u8 == 0);
                    }
                }
            }
            Some(byte)
        }
    }
}

impl Default for BitOutputStream {
    fn default() -> (stream: BitOutputStream)
        ensures
            stream.pending() == Seq::<u8>::empty(),
    {
        BitOutputStream::new()
    }
}

/// What a reader of bits holds between two reads: the bits of the current
/// byte that were not handed out yet, and whether the source has ended.
pub ghost struct InputWindow {
    pub remaining: Seq<u8>,
    pub exhausted: bool,
}

/// One read. `supplied` is what the source gave when it was asked for a byte;
/// it is looked at only where the window is empty and the source has not ended.
pub open spec fn read_step(window: InputWindow, supplied: Option<u8>) -> (InputWindow, Option<u8>) {
    if window.exhausted {
        (window, None)
    } else if window.remaining.len() > 0 {
        (
            InputWindow { remaining: window.remaining.drop_first(), exhausted: false },
            Some(window.remaining[0]),
        )
    } else {
        match supplied {
            Some(byte) => (
                InputWindow { remaining: bits_of(byte).drop_first(), exhausted: false },
                Some(bits_of(byte)[0]),
            ),
            None => (InputWindow { remaining: Seq::empty(), exhausted: true }, None),
        }
    }
}

/// The window after a run of reads, one entry of `supplies` for each.
pub open spec fn read_all(window: InputWindow, supplies: Seq<Option<u8>>) -> InputWindow
    decreases supplies.len(),
{
    if supplies.len() == 0 {
        window
    } else {
        read_all(read_step(window, supplies[0]).0, supplies.drop_first())
    }
}

/// Once a read has found the source ended, every later read finds it ended
/// too, whatever is supplied to it.
pub proof fn lemma_exhaustion_is_permanent(
    window: InputWindow,
    supplied: Option<u8>,
    later: Seq<Option<u8>>,
    last: Option<u8>,
)
    requires
        read_step(window, supplied).1 is None,
    ensures
        read_step(read_all(read_step(window, supplied).0, later), last).1 is None,
        read_all(read_step(window, supplied).0, later) == read_step(window, supplied).0,
    decreases later.len(),
{
    let after = read_step(window, supplied).0;
    assert(after.exhausted);
    if later.len() > 0 {
        assert(read_step(after, later[0]) == (after, None::<u8>));
        lemma_exhaustion_is_permanent(after, later[0], later.drop_first(), last);
    }
}

/// A reader that hands out the bits of the bytes it is given, most
/// significant first, and remembers that its source has ended.
#[derive(Debug)]
pub struct BitInputStream {
    buffer_byte: u8,
    buffer_idx: u8,
    exhausted: bool,
}

impl BitInputStream {
    #[verifier::type_invariant]
    spec fn well_formed(self) -> bool {
        &&& self.buffer_idx <= 8
        &&& self.exhausted ==> self.buffer_idx == 0
    }

    /// The bits not handed out yet, and whether the source has ended.
    pub closed spec fn window(self) -> InputWindow {
        InputWindow {
            remaining: Seq::new(
                self.buffer_idx as nat,
                |i: int| bit_at(self.buffer_byte, 8 - self.buffer_idx + i),
            ),
            exhausted: self.exhausted,
        }
    }

    /// A reader that holds no bits and has not seen its source end.
    pub fn new() -> (stream: BitInputStream)
        ensures
            stream.window() == (InputWindow { remaining: Seq::empty(), exhausted: false }),
    {
        let stream = BitInputStream { buffer_byte: 0, buffer_idx: 0, exhausted: false };
        assert(stream.window().remaining =~= Seq::<u8>::empty());
        stream
    }

    /// Whether the next read consumes a byte of the source.
    pub fn needs_byte(&self) -> (needed: bool)
        ensures
            needed == (!self.window().exhausted && self.window().remaining.len() == 0),
    {
        proof {
            use_type_invariant(self);
        }
        !self.exhausted && self.buffer_idx == 0
    }

    /// Whether a read has found the source ended.
    pub fn is_exhausted(&self) -> (ended: bool)
        ensures
            ended == self.window().exhausted,
    {
        self.exhausted
    }

    /// Hands out the next bit, or `None` once the source has ended. Where
    /// `needs_byte` holds the caller asks the source for a byte first and
    /// passes on what it gave; otherwise `supplied` is not looked at.
    pub fn read(&mut self, supplied: Option<u8>) -> (bit: Option<u8>)
        ensures
            (final(self).window(), bit) == read_step(old(self).window(), supplied),
            bit is Some ==> bit->0 <= 1,
    {
        proof {
            use_type_invariant(&*self);
        }
        let ghost before = *self;
        if self.exhausted {
            return None;
        }
        let mut byte = self.buffer_byte;
        let mut idx = self.buffer_idx;
        if idx == 0 {
            match supplied {
                Some(fresh) => {
                    byte = fresh;
                    idx = 8;
                },
                None => {
                    *self = BitInputStream { buffer_byte: byte, buffer_idx: 0, exhausted: true };
                    assert(self.window().remaining =~= Seq::<u8>::empty());
                    return None;
                },
            }
        }
        idx = idx - 1;
        *self = BitInputStream { buffer_byte: byte, buffer_idx: idx, exhausted: false };
        let bit = (byte >> idx) & 1u8;
        proof {
            lemma_bit_range(byte, idx);
            let expected = read_step(before.window(), supplied);
            assert(self.window().remaining =~= expected.0.remaining);
            assert(bit == bit_at(byte, 7 - idx));
        }
        Some(bit)
    }
}

impl Default for BitInputStream {
    fn default() -> (stream: BitInputStream)
        ensures
            stream.window() == (InputWindow { remaining: Seq::empty(), exhausted: false }),
    {
        BitInputStream::new()
    }
}

} // verus!
