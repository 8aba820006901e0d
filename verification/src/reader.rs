//! Reading bits, most significant first.
use vstd::prelude::*;
use vstd::arithmetic::power2::*;

verus! {

/// Why bits could not be read.
#[derive(Debug, Clone, Copy, PartialEq, Eq, Structural)]
pub enum ReadError {
    /// Fewer bits are left than were asked for.
    EndOfData {
        /// Number of bits asked for.
        needed: u32,
        /// Number of bits left.
        available: u64,
    },
}

/// The bits of a byte sequence, the most significant bit of each byte first.
pub open spec fn bits_of(data: Seq<u8>) -> Seq<bool> {
    Seq::new(8 * data.len(), |i: int| (data[i / 8] >> ((7 - i % 8) as u8)) & 1u8 == 1u8)
}

/// The number that `count` bits from `pos` on stand for.
pub open spec fn bits_value(bits: Seq<bool>, pos: int, count: int) -> nat
    decreases count,
{
    if count <= 0 {
        0
    } else {
        2 * bits_value(bits, pos, count - 1) + (if bits[pos + count - 1] {
            1nat
        } else {
            0nat
        })
    }
}

/// A number of `count` bits is below `2^count`.
pub proof fn lemma_bits_value_range(bits: Seq<bool>, pos: int, count: int)
    requires
        0 <= count,
    ensures
        bits_value(bits, pos, count) < pow2(count as nat),
    decreases count,
{
    if count > 0 {
        lemma_bits_value_range(bits, pos, count - 1);
        lemma_pow2_unfold(count as nat);
    } else {
        lemma2_to64();
    }
}

/// Contents and position of a reader.
#[verifier::ext_equal]
pub struct ReaderView {
    /// All bits.
    pub bits: Seq<bool>,
    /// Number of bits already read.
    pub pos: int,
}

impl ReaderView {
    /// The same bits at another position.
    pub open spec fn at(self, pos: int) -> ReaderView {
        ReaderView { bits: self.bits, pos }
    }

    /// Number of bits left.
    pub open spec fn left(self) -> int {
        self.bits.len() - self.pos
    }
}

/// Reads a byte slice bit by bit.
#[derive(Debug, Clone, Copy)]
pub struct BitReader<'a> {
    data: &'a [u8],
    position: u64,
}

impl<'a> View for BitReader<'a> {
    type V = ReaderView;

    closed spec fn view(&self) -> ReaderView {
        ReaderView { bits: bits_of(self.data@), pos: self.position as int }
    }
}

impl<'a> BitReader<'a> {
    #[verifier::type_invariant]
    spec fn well_formed(self) -> bool {
        &&& 8 * self.data@.len() <= u64::MAX
        &&& self.position <= 8 * self.data@.len()
    }

    /// A reader at the first bit of `data`.
    #[must_use]
    pub fn new(data: &'a [u8]) -> (reader: Self)
        requires
            8 * data@.len() <= u64::MAX,
        ensures
            reader@ == (ReaderView { bits: bits_of(data@), pos: 0 }),
    {
        BitReader { data, position: 0 }
    }

    /// Number of bits already read.
    #[must_use]
    pub fn bit_position(&self) -> (position: u64)
        ensures
            position == self@.pos,
            0 <= self@.pos <= self@.bits.len() <= u64::MAX,
    {
        proof {
            use_type_invariant(self);
        }
        self.position
    }

    /// Number of bits left.
    #[must_use]
    pub fn bits_left(&self) -> (left: u64)
        ensures
            left == self@.left(),
            0 <= self@.pos <= self@.bits.len() <= u64::MAX,
    {
        proof {
            use_type_invariant(self);
        }
        self.data.len() as u64 * 8 - self.position
    }

    /// Reads one bit.
    ///
    /// Nothing is read when no bit is left.
    pub fn read_flag(&mut self) -> (result: Result<bool, ReadError>)
        ensures
            match result {
                Ok(flag) => {
                    &&& old(self)@.left() >= 1
                    &&& flag == old(self)@.bits[old(self)@.pos]
                    &&& final(self)@ == old(self)@.at(old(self)@.pos + 1)
                },
                Err(error) => {
                    &&& old(self)@.left() == 0
                    &&& error == ReadError::EndOfData { needed: 1, available: 0 }
                    &&& final(self)@ == old(self)@
                },
            },
    {
        proof {
            use_type_invariant(&*self);
        }
        let position: u64 = self.position;
        let index: u64 = position / 8;
        if index >= self.data.len() as u64 {
            return Err(ReadError::EndOfData { needed: 1, available: 0 });
        }
        let shift: u8 = (7 - position % 8) as u8;
        let flag: bool = (self.data[index as usize] >> shift) & 1u8 == 1u8;
        self.position = position + 1;
        Ok(flag)
    }

    /// Reads an unsigned number of up to 32 bits.
    ///
    /// Nothing is read when too few bits are left.
    pub fn read_bits(&mut self, count: u32) -> (result: Result<u32, ReadError>)
        requires
            count <= 32,
        ensures
            match result {
                Ok(value) => {
                    &&& old(self)@.left() >= count
                    &&& value == bits_value(old(self)@.bits, old(self)@.pos, count as int)
                    &&& final(self)@ == old(self)@.at(old(self)@.pos + count)
                },
                Err(error) => {
                    &&& 0 <= old(self)@.left() < count
                    &&& error == ReadError::EndOfData {
                        needed: count,
                        available: old(self)@.left() as u64,
                    }
                    &&& final(self)@ == old(self)@
                },
            },
    {
        let available: u64 = self.bits_left();
        if available < count as u64 {
            return Err(ReadError::EndOfData { needed: count, available });
        }
        let ghost start = self@;
        let mut value: u64 = 0;
        let mut done: u32 = 0;
        while done < count
            invariant
                done <= count <= 32,
                start == old(self)@,
                start.left() >= count,
                start.pos >= 0,
                self@ == start.at(start.pos + done),
                value == bits_value(start.bits, start.pos, done as int),
                value < 0x1_0000_0000,
            decreases count - done,
        {
            let flag: bool = self.read_flag()?;
            value = value * 2 + (if flag {
                1
            } else {
                0
            });
            done = done + 1;
            proof {
                lemma_bits_value_range(start.bits, start.pos, done as int);
                lemma2_to64();
                if done < 32 {
                    lemma_pow2_strictly_increases(done as nat, 32);
                }
            }
        }
        Ok(value as u32)
    }
}

/// Eight bits from the start of a byte on give that byte back.
pub proof fn lemma_bytes_are_their_bits(data: Seq<u8>, index: int)
    requires
        0 <= index < data.len(),
    ensures
        bits_of(data).len() == 8 * data.len(),
        bits_value(bits_of(data), 8 * index, 8) == data[index],
{
    let bits = bits_of(data);
    let pos = 8 * index;
    let byte = data[index];
    assert(byte == 128 * (byte >> 7 & 1) + 64 * (byte >> 6 & 1) + 32 * (byte >> 5 & 1) + 16 * (byte
        >> 4 & 1) + 8 * (byte >> 3 & 1) + 4 * (byte >> 2 & 1) + 2 * (byte >> 1 & 1) + (byte >> 0
        & 1)) by (bit_vector);
    assert(byte >> 7 & 1 <= 1 && byte >> 6 & 1 <= 1 && byte >> 5 & 1 <= 1 && byte >> 4 & 1 <= 1
        && byte >> 3 & 1 <= 1 && byte >> 2 & 1 <= 1 && byte >> 1 & 1 <= 1 && byte >> 0 & 1 <= 1)
        by (bit_vector);
    assert forall|j: int| 0 <= j < 8 implies #[trigger] bits[pos + j] == ((byte >> ((7 - j) as u8))
        & 1u8 == 1u8) by {
        assert((pos + j) / 8 == index);
        assert((pos + j) % 8 == j);
    }
    assert(bits[pos + 0] == (byte >> 7 & 1 == 1));
    assert(bits[pos + 1] == (byte >> 6 & 1 == 1));
    assert(bits[pos + 2] == (byte >> 5 & 1 == 1));
    assert(bits[pos + 3] == (byte >> 4 & 1 == 1));
    assert(bits[pos + 4] == (byte >> 3 & 1 == 1));
    assert(bits[pos + 5] == (byte >> 2 & 1 == 1));
    assert(bits[pos + 6] == (byte >> 1 & 1 == 1));
    assert(bits[pos + 7] == (byte >> 0 & 1 == 1));
    reveal_with_fuel(bits_value, 9);
}

/// A number is read in parts as it is read at once: the first part counts for
/// as many doublings as the second part has bits.
pub proof fn lemma_numbers_are_read_in_parts(bits: Seq<bool>, pos: int, first: int, second: int)
    requires
        0 <= first,
        0 <= second,
    ensures
        bits_value(bits, pos, first + second) == bits_value(bits, pos, first) * pow2(second as nat)
            + bits_value(bits, pos + first, second),
    decreases second,
{
    lemma2_to64();
    if second > 0 {
        lemma_numbers_are_read_in_parts(bits, pos, first, second - 1);
        lemma_pow2_unfold(second as nat);
        let whole = bits_value(bits, pos, first);
        let half = pow2((second - 1) as nat);
        assert(2 * (whole * half) == whole * (2 * half)) by (nonlinear_arith);
        assert(first + second - 1 == first + (second - 1));
        assert(bits[pos + (first + second) - 1] == bits[(pos + first) + second - 1]);
    } else {
        assert(bits_value(bits, pos, first) * 1 == bits_value(bits, pos, first));
    }
}

} // verus!
