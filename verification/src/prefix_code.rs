//! The prefix code for sensor counts: which bits stand for which count, and
//! what reading those bits back gives.
//!
//! | count            | bits                   |
//! |------------------|------------------------|
//! | 0                | `0`                    |
//! | missing (65535)  | `10`                   |
//! | 1                | `110`                  |
//! | 2 ..= 127        | `1110` + 7 value bits  |
//! | 128 and above    | `1111` + 11 value bits |

use crate::bits::{
    bits_of, lemma_mask_bit, lemma_push_bit, lemma_unpack_pack, lemma_word_ext, low_mask, pack,
    padding, unpack, word_bit,
};
use vstd::prelude::*;

verus! {

/// The count that stands for a missing or invalid reading.
pub const SENTINEL: u16 = 65535;

/// The largest count that the 11-bit field holds without loss.
pub const MAX_COUNT: u16 = 2047;

/// The code word of one count. A count above `MAX_COUNT` other than the
/// sentinel keeps only its low 11 bits.
pub open spec fn code_word(value: u16) -> Seq<bool> {
    if value == 0 {
        seq![false]
    } else if value == SENTINEL {
        seq![true, false]
    } else if value == 1 {
        seq![true, true, false]
    } else if value <= 127 {
        seq![true, true, true, false] + bits_of(value, 7)
    } else {
        seq![true, true, true, true] + bits_of(value, 11)
    }
}

/// The code words of a sequence of counts, one after the other.
pub open spec fn code_bits(values: Seq<u16>) -> Seq<bool>
    decreases values.len(),
{
    if values.len() == 0 {
        Seq::empty()
    } else {
        code_bits(values.drop_last()) + code_word(values.last())
    }
}

/// Whether a count comes back unchanged from its code word.
pub open spec fn representable(value: u16) -> bool {
    value <= MAX_COUNT || value == SENTINEL
}

/// The five prefixes of the code, as the encoder writes them.
pub proof fn lemma_prefixes()
    ensures
        bits_of(0, 1) == seq![false],
        bits_of(2, 2) == seq![true, false],
        bits_of(6, 3) == seq![true, true, false],
        bits_of(14, 4) == seq![true, true, true, false],
        bits_of(15, 4) == seq![true, true, true, true],
{
    assert(!word_bit(0, 0) && word_bit(2, 1) && !word_bit(2, 0) && word_bit(6, 2) && word_bit(6, 1)
        && !word_bit(6, 0) && word_bit(14, 3) && word_bit(14, 2) && word_bit(14, 1) && !word_bit(
        14,
        0,
    ) && word_bit(15, 3) && word_bit(15, 2) && word_bit(15, 1) && word_bit(15, 0))
        by (bit_vector);
    assert(bits_of(0, 1) =~= seq![false]);
    assert(bits_of(2, 2) =~= seq![true, false]);
    assert(bits_of(6, 3) =~= seq![true, true, false]);
    assert(bits_of(14, 4) =~= seq![true, true, true, false]);
    assert(bits_of(15, 4) =~= seq![true, true, true, true]);
}

/// The code words of `a` followed by those of `b` are the code words of
/// `a + b`.
pub proof fn lemma_code_bits_concat(a: Seq<u16>, b: Seq<u16>)
    ensures
        code_bits(a + b) == code_bits(a) + code_bits(b),
    decreases b.len(),
{
    if b.len() == 0 {
        assert(a + b =~= a);
        assert(code_bits(a) + code_bits(b) =~= code_bits(a));
    } else {
        lemma_code_bits_concat(a, b.drop_last());
        assert((a + b).drop_last() =~= a + b.drop_last());
        assert(code_bits(a + b) =~= code_bits(a) + code_bits(b));
    }
}

/// One more count adds its code word at the end.
pub proof fn lemma_code_bits_push(values: Seq<u16>, value: u16)
    ensures
        code_bits(values.push(value)) == code_bits(values) + code_word(value),
{
    assert(values.push(value).drop_last() =~= values);
}

/// The word whose binary digits are `bits`, most significant first. Meant
/// for at most 16 bits.
pub open spec fn word_of(bits: Seq<bool>) -> u16
    decreases bits.len(),
{
    if bits.len() == 0 {
        0
    } else {
        (word_of(bits.drop_last()) << 1) | (if bits.last() {
            1u16
        } else {
            0u16
        })
    }
}

/// What reading one code word from the front of `bits` gives: the count and
/// the number of bits read, or `None` where the stream ends inside the word.
pub open spec fn decode_word(bits: Seq<bool>) -> Option<(u16, nat)> {
    if bits.len() < 1 {
        None
    } else if !bits[0] {
        Some((0, 1))
    } else if bits.len() < 2 {
        None
    } else if !bits[1] {
        Some((SENTINEL, 2))
    } else if bits.len() < 3 {
        None
    } else if !bits[2] {
        Some((1, 3))
    } else if bits.len() < 4 {
        None
    } else if !bits[3] {
        if bits.len() < 11 {
            None
        } else {
            Some((word_of(bits.subrange(4, 11)), 11))
        }
    } else {
        if bits.len() < 15 {
            None
        } else {
            Some((word_of(bits.subrange(4, 15)), 15))
        }
    }
}

/// What reading `count` code words from the front of `bits` gives, or `None`
/// where the stream ends before the last of them does.
pub open spec fn decode_values(bits: Seq<bool>, count: nat) -> Option<Seq<u16>>
    decreases count,
{
    if count == 0 {
        Some(Seq::empty())
    } else {
        match decode_word(bits) {
            None => None,
            Some((value, used)) => match decode_values(bits.skip(used as int), (count - 1) as nat) {
                None => None,
                Some(rest) => Some(seq![value] + rest),
            },
        }
    }
}

/// Bit `j` of `word_of(bits)` is the digit `j` places from the end.
pub proof fn lemma_word_of_bit(bits: Seq<bool>, j: int)
    requires
        bits.len() <= 16,
        0 <= j < 16,
    ensures
        word_bit(word_of(bits), j) == (j < bits.len() && bits[bits.len() - 1 - j]),
    decreases bits.len(),
{
    if bits.len() == 0 {
        assert(!word_bit(0, j)) by {
            lemma_mask_bit(0, 0, j);
            assert(0u16 & low_mask(0) == 0u16) by (bit_vector);
        }
    } else {
        lemma_push_bit(word_of(bits.drop_last()), bits.last(), j);
        if j > 0 {
            lemma_word_of_bit(bits.drop_last(), j - 1);
        }
    }
}

/// Reading back the digits of the low `width` bits of a word gives the word
/// masked to that width.
pub proof fn lemma_word_of_bits_of(value: u16, width: nat)
    requires
        width <= 16,
    ensures
        word_of(bits_of(value, width)) == value & low_mask(width),
{
    let read = word_of(bits_of(value, width));
    assert forall|j: int| 0 <= j < 16 implies word_bit(read, j) == word_bit(
        value & low_mask(width),
        j,
    ) by {
        lemma_word_of_bit(bits_of(value, width), j);
        lemma_mask_bit(value, width, j);
    }
    lemma_word_ext(read, value & low_mask(width));
}

/// Reading the code word of a representable count gives the count back,
/// whatever follows it in the stream.
pub proof fn lemma_decode_code_word(value: u16, tail: Seq<bool>)
    requires
        representable(value),
    ensures
        decode_word(code_word(value) + tail) == Some((value, code_word(value).len())),
{
    let bits = code_word(value) + tail;
    if value == 0 || value == SENTINEL || value == 1 {
    } else if value <= 127 {
        assert(bits.subrange(4, 11) =~= bits_of(value, 7));
        lemma_word_of_bits_of(value, 7);
        assert(value & low_mask(7) == value) by (bit_vector)
            requires
                value <= 127,
        ;
    } else {
        assert(bits.subrange(4, 15) =~= bits_of(value, 11));
        lemma_word_of_bits_of(value, 11);
        assert(value & low_mask(11) == value) by (bit_vector)
            requires
                value <= 2047,
        ;
    }
}

/// The first count adds its code word at the front.
pub proof fn lemma_code_bits_first(values: Seq<u16>)
    requires
        values.len() > 0,
    ensures
        code_bits(values) == code_word(values.first()) + code_bits(values.drop_first()),
{
    lemma_code_bits_concat(seq![values.first()], values.drop_first());
    assert(seq![values.first()] + values.drop_first() =~= values);
    lemma_code_bits_push(Seq::empty(), values.first());
    assert(Seq::<u16>::empty().push(values.first()) =~= seq![values.first()]);
    assert(code_bits(seq![values.first()]) =~= code_word(values.first()));
}

/// Reading as many code words as were written gives the counts back, if
/// each of them is representable, whatever follows them in the stream.
pub proof fn lemma_round_trip(values: Seq<u16>, tail: Seq<bool>)
    requires
        forall|i: int| 0 <= i < values.len() ==> representable(#[trigger] values[i]),
    ensures
        decode_values(code_bits(values) + tail, values.len()) == Some(values),
    decreases values.len(),
{
    if values.len() == 0 {
        assert(values =~= Seq::<u16>::empty());
    } else {
        let first = values.first();
        let rest = values.drop_first();
        let bits = code_bits(values) + tail;
        lemma_code_bits_first(values);
        assert(bits =~= code_word(first) + (code_bits(rest) + tail));
        lemma_decode_code_word(first, code_bits(rest) + tail);
        assert(bits.skip(code_word(first).len() as int) =~= code_bits(rest) + tail);
        lemma_round_trip(rest, tail);
        assert(seq![first] + rest =~= values);
    }
}

/// Reading the packed bytes of the code words of representable counts gives
/// the counts back: the zero bits that fill the last byte do no harm.
pub proof fn lemma_round_trip_packed(values: Seq<u16>)
    requires
        forall|i: int| 0 <= i < values.len() ==> representable(#[trigger] values[i]),
    ensures
        decode_values(unpack(pack(code_bits(values))), values.len()) == Some(values),
{
    lemma_unpack_pack(code_bits(values));
    lemma_round_trip(values, padding(code_bits(values).len()));
}

} // verus!
