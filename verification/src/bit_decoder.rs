//! The reader that undoes the accumulator: takes bits off the front of a
//! byte sequence, and counts off the front of a stream of code words.

use crate::bits::unpack;
use crate::prefix_code::{decode_values, decode_word, word_of, SENTINEL};
use vstd::prelude::*;

verus! {

/// A cursor into a byte sequence. Its view is the bits not yet read, first
/// bit first.
#[derive(Clone, Copy)]
pub struct BitDecoder<'a> {
    bytes: &'a [u8],
    byte_index: usize,
    bit_index: u8,
}

impl<'a> View for BitDecoder<'a> {
    type V = Seq<bool>;

    closed spec fn view(&self) -> Seq<bool> {
        unpack(self.bytes@).skip(8 * self.byte_index + self.bit_index)
    }
}

impl<'a> BitDecoder<'a> {
    /// The representation invariant: the cursor lies inside the bytes or at
    /// their end.
    pub closed spec fn wf(&self) -> bool {
        &&& self.bit_index < 8
        &&& self.byte_index <= self.bytes@.len()
        &&& self.byte_index == self.bytes@.len() ==> self.bit_index == 0
    }

    /// A reader at the first bit of `bytes`.
    pub fn new(bytes: &'a [u8]) -> (reader: Self)
        ensures
            reader.wf(),
            reader@ == unpack(bytes@),
    {
        let reader = Self { bytes, byte_index: 0, bit_index: 0 };
        assert(reader@ =~= unpack(bytes@));
        reader
    }

    /// Whether at least `num_bits` bits are left to read.
    fn has_bits(&self, num_bits: u8) -> (enough: bool)
        requires
            self.wf(),
            num_bits <= 16,
        ensures
            enough == (self@.len() >= num_bits),
    {
        let whole = self.bytes.len() - self.byte_index;
        if whole >= 3 {
            true
        } else {
            8 * whole - (self.bit_index as usize) >= num_bits as usize
        }
    }

    /// Takes the next bit off the stream.
    fn read_bit(&mut self) -> (bit: bool)
        requires
            old(self).wf(),
            old(self)@.len() > 0,
        ensures
            final(self).wf(),
            bit == old(self)@[0],
            final(self)@ == old(self)@.skip(1),
    {
        let bit = self.bytes[self.byte_index] & (0x80u8 >> self.bit_index) != 0;
        if self.bit_index == 7 {
            self.bit_index = 0;
            self.byte_index += 1;
        } else {
            self.bit_index += 1;
        }
        assert(self@ =~= old(self)@.skip(1));
        bit
    }

    /// Takes the next `num_bits` bits off the stream and returns them as a
    /// word, the first bit read being the most significant. Where fewer bits
    /// are left, nothing is read.
    pub fn decode_bits(&mut self, num_bits: u8) -> (word: Option<u16>)
        requires
            old(self).wf(),
            num_bits <= 16,
        ensures
            final(self).wf(),
            match word {
                Some(value) => {
                    &&& old(self)@.len() >= num_bits
                    &&& value == word_of(old(self)@.take(num_bits as int))
                    &&& final(self)@ == old(self)@.skip(num_bits as int)
                },
                None => old(self)@.len() < num_bits && final(self)@ == old(self)@,
            },
    {
        if !self.has_bits(num_bits) {
            return None;
        }
        let ghost start = self@;
        let mut value: u16 = 0;
        let mut taken: u8 = 0;
        assert(self@ =~= start.skip(0));
        while taken < num_bits
            invariant
                self.wf(),
                taken <= num_bits <= 16,
                start.len() >= num_bits,
                self@ == start.skip(taken as int),
                value == word_of(start.take(taken as int)),
            decreases num_bits - taken,
        {
            let bit = self.read_bit();
            proof {
                assert(start.take(taken + 1).drop_last() =~= start.take(taken as int));
                assert(start.skip(taken as int).skip(1) =~= start.skip(taken + 1));
            }
            value = (value << 1) | (if bit { 1u16 } else { 0u16 });
            taken += 1;
        }
        Some(value)
    }

    /// Takes the next code word off the stream and returns its count. Where
    /// the stream ends inside the word, nothing is read.
    pub fn decode_value(&mut self) -> (value: Option<u16>)
        requires
            old(self).wf(),
        ensures
            final(self).wf(),
            match decode_word(old(self)@) {
                Some((count, used)) => value == Some(count) && final(self)@ == old(self)@.skip(
                    used as int,
                ),
                None => value is None && final(self)@ == old(self)@,
            },
    {
        let saved = *self;
        let ghost start = self@;
        if !self.has_bits(1) {
            return None;
        }
        if !self.read_bit() {
            return Some(0);
        }
        if !self.has_bits(1) {
            *self = saved;
            return None;
        }
        if !self.read_bit() {
            assert(self@ =~= start.skip(2));
            return Some(SENTINEL);
        }
        if !self.has_bits(1) {
            *self = saved;
            return None;
        }
        if !self.read_bit() {
            assert(self@ =~= start.skip(3));
            return Some(1);
        }
        if !self.has_bits(1) {
            *self = saved;
            return None;
        }
        let wide = self.read_bit();
        assert(self@ =~= start.skip(4));
        let width: u8 = if wide {
            11
        } else {
            7
        };
        match self.decode_bits(width) {
            Some(value) => {
                proof {
                    assert(start.skip(4).take(width as int) =~= start.subrange(4, 4 + width));
                    assert(self@ =~= start.skip(4 + width));
                }
                Some(value)
            },
            None => {
                *self = saved;
                None
            },
        }
    }
}

/// The counts read so far followed by what reading on gives.
spec fn read_on(done: Seq<u16>, rest: Option<Seq<u16>>) -> Option<Seq<u16>> {
    match rest {
        Some(more) => Some(done + more),
        None => None,
    }
}

/// Reads `count` counts from the front of `bytes`: the inverse of encoding
/// them and flushing. `None` where the bytes end before the last count does.
pub fn decode(bytes: &[u8], count: usize) -> (values: Option<Vec<u16>>)
    ensures
        match decode_values(unpack(bytes@), count as nat) {
            Some(counts) => values matches Some(v) && v@ == counts,
            None => values is None,
        },
{
    let mut reader = BitDecoder::new(bytes);
    let mut out: Vec<u16> = Vec::new();
    let ghost all = unpack(bytes@);
    let ghost total = count as nat;
    proof {
        if let Some(counts) = decode_values(all, total) {
            assert(Seq::<u16>::empty() + counts =~= counts);
        }
    }
    for i in 0..count
        invariant
            reader.wf(),
            total == count,
            all == unpack(bytes@),
            decode_values(all, total) == read_on(out@, decode_values(reader@, (count - i) as nat)),
    {
        let ghost before = reader@;
        let ghost done = out@;
        match reader.decode_value() {
            Some(value) => {
                out.push(value);
                proof {
                    let rest = decode_values(reader@, (count - i - 1) as nat);
                    if rest is Some {
                        assert(done + (seq![value] + rest.unwrap()) =~= out@ + rest.unwrap());
                    }
                }
            },
            None => {
                return None;
            },
        }
    }
    assert(out@ + Seq::<u16>::empty() =~= out@);
    Some(out)
}

} // verus!
