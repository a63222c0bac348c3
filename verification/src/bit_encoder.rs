//! The bit accumulator: appends code words of up to 16 bits to a stream, at
//! any bit offset, and hands the stream out as bytes.

use crate::bits::{
    bits_of, byte_at, byte_bit, byte_bits, byte_from, head_bits, lemma_byte_from_own_bits,
    lemma_mask_bit, lemma_mask_mask, lemma_or_bit, lemma_pack_append, lemma_pack_padding,
    lemma_shl_bit, lemma_shr_bit, lemma_unpack_push, lemma_zero_byte, low_mask, pack, padding,
    stream_bit, tail_clear, unpack, word_bit,
};
use crate::prefix_code::{
    code_bits, code_word, lemma_code_bits_push, lemma_prefixes, SENTINEL,
};
use vstd::prelude::*;

verus! {

/// An accumulator of bits. Its view is the stream written so far, first bit
/// first; the stream's whole bytes are held in `bytes`, the bits after the
/// last byte boundary in the high-order end of `current_byte`.
pub struct BitEncoder {
    bytes: Vec<u8>,
    current_byte: u8,
    bits_filled: u8,
}

impl View for BitEncoder {
    type V = Seq<bool>;

    closed spec fn view(&self) -> Seq<bool> {
        unpack(self.bytes@) + head_bits(self.current_byte, self.bits_filled as nat)
    }
}

/// The low `width` bits of an all-ones word.
fn mask_of(width: u8) -> (mask: u16)
    requires
        width <= 16,
    ensures
        mask == low_mask(width as nat),
{
    if width >= 16 {
        u16::MAX
    } else {
        assert((1u16 << width) >= 1) by (bit_vector)
            requires
                width < 16,
        ;
        (1u16 << width) - 1
    }
}

/// A code word of `r` bits shifted to the top of a fresh byte.
proof fn lemma_place(rv: u16, v: u16, r: nat, shift: nat)
    requires
        r + shift <= 8,
        rv == v & low_mask(r),
    ensures
        forall|k: int|
            0 <= k < 8 ==> #[trigger] byte_bit((rv << shift) as u8, k) == (8 - shift - r <= k < 8
                - shift && word_bit(v, 7 - shift - k)),
{
    assert forall|k: int| 0 <= k < 8 implies #[trigger] byte_bit((rv << shift) as u8, k) == (8
        - shift - r <= k < 8 - shift && word_bit(v, 7 - shift - k)) by {
        lemma_shl_bit(rv, shift, k);
        if k + shift < 8 {
            lemma_mask_bit(v, r, 7 - k - shift);
        }
    }
}

/// A code word that fits into the free part of the byte in progress.
proof fn lemma_fill(cur: u8, f: nat, rv: u16, v: u16, r: nat)
    requires
        f < 8,
        r <= 8 - f,
        tail_clear(cur, f),
        rv == v & low_mask(r),
    ensures
        head_bits(cur | ((rv << ((8 - f - r) as nat)) as u8), f + r) == head_bits(cur, f) + bits_of(
            v,
            r,
        ),
        tail_clear(cur | ((rv << ((8 - f - r) as nat)) as u8), f + r),
{
    let shift = (8 - f - r) as nat;
    let placed = (rv << shift) as u8;
    let next = cur | placed;
    lemma_place(rv, v, r, shift);
    assert forall|k: int| 0 <= k < 8 implies byte_bit(next, k) == (if k < f {
        byte_bit(cur, k)
    } else {
        k < f + r && word_bit(v, r - 1 - (k - f))
    }) by {
        lemma_or_bit(cur, placed, k);
    }
    assert(head_bits(next, f + r) =~= head_bits(cur, f) + bits_of(v, r));
}

/// The leading bits of a code word that complete the byte in progress.
proof fn lemma_top(cur: u8, f: nat, rv: u16, v: u16, r: nat)
    requires
        f < 8,
        8 - f <= r <= 16,
        tail_clear(cur, f),
        rv == v & low_mask(r),
    ensures
        byte_bits(cur | ((rv >> ((r - (8 - f)) as nat)) as u8)) + bits_of(v, (r - (8 - f)) as nat)
            == head_bits(cur, f) + bits_of(v, r),
{
    let shift = (r - (8 - f)) as nat;
    let top = (rv >> shift) as u8;
    let next = cur | top;
    assert forall|k: int| 0 <= k < 8 implies byte_bit(next, k) == (if k < f {
        byte_bit(cur, k)
    } else {
        word_bit(v, r - 1 - (k - f))
    }) by {
        lemma_or_bit(cur, top, k);
        lemma_shr_bit(rv, shift, k);
        lemma_mask_bit(v, r, 7 - k + shift);
    }
    assert(byte_bits(next) + bits_of(v, shift) =~= head_bits(cur, f) + bits_of(v, r));
}

/// The leading eight bits of a code word, as a byte of their own.
proof fn lemma_whole(rv: u16, v: u16, r: nat)
    requires
        8 <= r <= 16,
        rv == v & low_mask(r),
    ensures
        byte_bits((rv >> ((r - 8) as nat)) as u8) + bits_of(v, (r - 8) as nat) == bits_of(v, r),
{
    let shift = (r - 8) as nat;
    let byte = (rv >> shift) as u8;
    assert forall|k: int| 0 <= k < 8 implies byte_bit(byte, k) == word_bit(v, r - 1 - k) by {
        lemma_shr_bit(rv, shift, k);
        lemma_mask_bit(v, r, 7 - k + shift);
    }
    assert(byte_bits(byte) + bits_of(v, shift) =~= bits_of(v, r));
}

/// The last bits of a code word, as the start of a new byte.
proof fn lemma_rest(rv: u16, v: u16, r: nat)
    requires
        r < 8,
        rv == v & low_mask(r),
    ensures
        head_bits((rv << ((8 - r) as nat)) as u8, r) == bits_of(v, r),
        tail_clear((rv << ((8 - r) as nat)) as u8, r),
{
    let shift = (8 - r) as nat;
    lemma_place(rv, v, r, shift);
    assert(head_bits((rv << shift) as u8, r) =~= bits_of(v, r));
}

impl BitEncoder {
    /// The representation invariant: fewer than eight bits are pending, and
    /// the byte in progress is zero below them.
    pub closed spec fn wf(&self) -> bool {
        &&& self.bits_filled < 8
        &&& tail_clear(self.current_byte, self.bits_filled as nat)
    }

    /// An encoder that has written nothing.
    pub fn new() -> (enc: Self)
        ensures
            enc.wf(),
            enc@ == Seq::<bool>::empty(),
    {
        let enc = Self { bytes: Vec::new(), current_byte: 0u8, bits_filled: 0u8 };
        proof {
            lemma_zero_byte();
            assert(enc@ =~= Seq::<bool>::empty());
        }
        enc
    }

    /// Appends the low `num_bits` bits of `value` to the stream, the most
    /// significant of them first. Bits of `value` above them are ignored.
    pub fn encode_bits(&mut self, value: u16, num_bits: u8)
        requires
            old(self).wf(),
            num_bits <= 16,
        ensures
            final(self).wf(),
            final(self)@ == old(self)@ + bits_of(value, num_bits as nat),
            final(self)@.len() == old(self)@.len() + num_bits,
    {
        let ghost target = self@ + bits_of(value, num_bits as nat);
        let mut remaining_value = value & mask_of(num_bits);
        let available_bits = 8 - self.bits_filled;

        if num_bits <= available_bits {
            proof {
                lemma_fill(
                    self.current_byte,
                    self.bits_filled as nat,
                    remaining_value,
                    value,
                    num_bits as nat,
                );
            }
            self.current_byte |= #[verifier::truncate]
            ((remaining_value << (available_bits - num_bits)) as u8);
            self.bits_filled += num_bits;
            assert(self@ =~= target);

            if self.bits_filled == 8 {
                proof {
                    lemma_unpack_push(self.bytes@, self.current_byte);
                    lemma_zero_byte();
                }
                self.bytes.push(self.current_byte);
                self.current_byte = 0;
                self.bits_filled = 0;
                assert(self@ =~= target);
            }
        } else {
            let mut bits_remaining = num_bits - available_bits;
            let ghost whole = unpack(self.bytes@);
            let ghost pending = head_bits(self.current_byte, self.bits_filled as nat);
            proof {
                lemma_top(
                    self.current_byte,
                    self.bits_filled as nat,
                    remaining_value,
                    value,
                    num_bits as nat,
                );
                lemma_mask_mask(value, num_bits as nat, bits_remaining as nat);
            }
            let bits_for_current = remaining_value >> bits_remaining;
            self.current_byte |= #[verifier::truncate] (bits_for_current as u8);
            proof {
                lemma_unpack_push(self.bytes@, self.current_byte);
            }
            self.bytes.push(self.current_byte);
            remaining_value &= mask_of(bits_remaining);
            assert(unpack(self.bytes@) + bits_of(value, bits_remaining as nat) =~= target) by {
                let rest = bits_of(value, bits_remaining as nat);
                assert(byte_bits(self.current_byte) + rest == pending + bits_of(
                    value,
                    num_bits as nat,
                ));
                assert((whole + byte_bits(self.current_byte)) + rest =~= whole + (byte_bits(
                    self.current_byte,
                ) + rest));
                assert(whole + (pending + bits_of(value, num_bits as nat)) =~= target);
            }

            while bits_remaining >= 8
                invariant
                    bits_remaining <= 16,
                    remaining_value == value & low_mask(bits_remaining as nat),
                    unpack(self.bytes@) + bits_of(value, bits_remaining as nat) == target,
                decreases bits_remaining,
            {
                proof {
                    lemma_whole(remaining_value, value, bits_remaining as nat);
                    lemma_mask_mask(value, bits_remaining as nat, (bits_remaining - 8) as nat);
                }
                let next_byte = #[verifier::truncate]
                ((remaining_value >> (bits_remaining - 8)) as u8);
                proof {
                    lemma_unpack_push(self.bytes@, next_byte);
                }
                self.bytes.push(next_byte);
                bits_remaining -= 8;
                remaining_value &= mask_of(bits_remaining);
                assert(unpack(self.bytes@) + bits_of(value, bits_remaining as nat) =~= target);
            }

            if bits_remaining > 0 {
                proof {
                    lemma_rest(remaining_value, value, bits_remaining as nat);
                }
                self.current_byte = #[verifier::truncate]
                ((remaining_value << (8 - bits_remaining)) as u8);
                self.bits_filled = bits_remaining;
            } else {
                proof {
                    lemma_zero_byte();
                }
                self.current_byte = 0;
                self.bits_filled = 0;
            }
            assert(self@ =~= target);
        }
    }

    /// Ends the byte in progress, if there is one, by filling it with zero
    /// bits. On a byte boundary nothing changes.
    pub fn flush(&mut self)
        requires
            old(self).wf(),
        ensures
            final(self).wf(),
            final(self)@ == old(self)@ + padding(old(self)@.len()),
            final(self)@.len() % 8 == 0,
            pack(final(self)@) == pack(old(self)@),
            old(self)@.len() % 8 == 0 ==> final(self)@ == old(self)@,
    {
        proof {
            lemma_pack_padding(self@);
        }
        if self.bits_filled > 0 {
            proof {
                lemma_unpack_push(self.bytes@, self.current_byte);
                lemma_zero_byte();
            }
            self.bytes.push(self.current_byte);
            self.current_byte = 0;
            self.bits_filled = 0;
        }
        assert(self@ =~= old(self)@ + padding(old(self)@.len()));
    }

    /// Appends the code word of each count, in order.
    pub fn encode(&mut self, values: &[u16])
        requires
            old(self).wf(),
        ensures
            final(self).wf(),
            final(self)@ == old(self)@ + code_bits(values@),
    {
        let ghost start = self@;
        assert(self@ =~= start + code_bits(values@.take(0)));
        for i in 0..values.len()
            invariant
                self.wf(),
                self@ == start + code_bits(values@.take(i as int)),
        {
            let v = values[i];
            let ghost before = self@;
            proof {
                lemma_prefixes();
            }
            if v == 0 {
                // 0
                self.encode_bits(0, 1);
            } else if v == SENTINEL {
                // 10
                self.encode_bits(2, 2);
            } else if v == 1 {
                // 110
                self.encode_bits(6, 3);
            } else if v <= 127 {
                // 1110xxxxxxx
                self.encode_bits(14, 4);
                self.encode_bits(v, 7);
            } else {
                // 1111xxxxxxxxxxx
                self.encode_bits(15, 4);
                self.encode_bits(v, 11);
            }
            proof {
                assert(self@ =~= before + code_word(v));
                lemma_code_bits_push(values@.take(i as int), v);
                assert(values@.take(i + 1) =~= values@.take(i as int).push(v));
                assert(self@ =~= start + code_bits(values@.take(i + 1)));
            }
        }
        assert(values@.take(values.len() as int) =~= values@);
    }

    /// The whole bytes of the stream so far. After `flush` these are all of
    /// the stream.
    pub fn bytes(&self) -> (out: &[u8])
        requires
            self.wf(),
        ensures
            out@ == pack(self@).take(self@.len() as int / 8),
            self@.len() % 8 == 0 ==> out@ == pack(self@),
    {
        proof {
            self.lemma_layout();
        }
        self.bytes.as_slice()
    }

    /// Gives up the encoder for the whole bytes of its stream.
    pub fn into_bytes(self) -> (out: Vec<u8>)
        requires
            self.wf(),
        ensures
            out@ == pack(self@).take(self@.len() as int / 8),
            self@.len() % 8 == 0 ==> out@ == pack(self@),
    {
        proof {
            self.lemma_layout();
        }
        self.bytes
    }

    /// The byte in progress: the bits written since the last byte boundary
    /// in its high-order end, zero below them.
    pub fn current_byte(&self) -> (byte: u8)
        requires
            self.wf(),
        ensures
            byte == byte_at(self@, self@.len() as int / 8),
    {
        proof {
            self.lemma_layout();
        }
        self.current_byte
    }

    /// The number of bits written since the last byte boundary.
    pub fn bits_filled(&self) -> (count: u8)
        requires
            self.wf(),
        ensures
            count == self@.len() % 8,
    {
        self.bits_filled
    }

    /// How the fields hold the stream.
    proof fn lemma_layout(&self)
        requires
            self.wf(),
        ensures
            self@.len() == 8 * self.bytes@.len() + self.bits_filled,
            self.bytes@ == pack(self@).take(self@.len() as int / 8),
            self@.len() % 8 == 0 ==> self.bytes@ == pack(self@),
            self.current_byte == byte_at(self@, self@.len() as int / 8),
    {
        let pending = head_bits(self.current_byte, self.bits_filled as nat);
        lemma_pack_append(self.bytes@, pending);
        assert(self.bytes@ =~= pack(self@).take(self@.len() as int / 8));
        if self@.len() % 8 == 0 {
            assert(self.bytes@ =~= pack(self@));
        }
        lemma_byte_from_own_bits(self.current_byte);
    }
}

impl Default for BitEncoder {
    /// An encoder that has written nothing.
    fn default() -> (enc: Self)
        ensures
            enc.wf(),
            enc@ == Seq::<bool>::empty(),
    {
        BitEncoder::new()
    }
}

/// Appends the low `width` binary digits of `num`, most significant first.
fn push_binary(digits: &mut Vec<bool>, num: u16, width: u8)
    requires
        width <= 16,
    ensures
        final(digits)@ == old(digits)@ + bits_of(num, width as nat),
{
    let ghost start = digits@;
    assert(digits@ =~= start + bits_of(num, width as nat).take(0));
    for k in 0..width
        invariant
            width <= 16,
            digits@ == start + bits_of(num, width as nat).take(k as int),
    {
        let place = width - 1 - k;
        digits.push((num >> place) & 1 == 1);
        assert(digits@ =~= start + bits_of(num, width as nat).take(k + 1));
    }
    assert(bits_of(num, width as nat).take(width as int) =~= bits_of(num, width as nat));
}

/// Digit `start + k` of a run of digits, zero past its end.
fn digit_at(digits: &Vec<bool>, start: usize, k: usize) -> (digit: bool)
    requires
        start <= digits@.len(),
    ensures
        digit == stream_bit(digits@, start + k),
{
    k < digits.len() - start && digits[start + k]
}

/// The byte made of the eight digits from `start` on, zeros past the end.
fn group_byte(digits: &Vec<bool>, start: usize) -> (byte: u8)
    requires
        start <= digits@.len(),
    ensures
        byte == byte_from(
            stream_bit(digits@, start + 0),
            stream_bit(digits@, start + 1),
            stream_bit(digits@, start + 2),
            stream_bit(digits@, start + 3),
            stream_bit(digits@, start + 4),
            stream_bit(digits@, start + 5),
            stream_bit(digits@, start + 6),
            stream_bit(digits@, start + 7),
        ),
{
    let b0: u8 = if digit_at(digits, start, 0) { 128 } else { 0 };
    let b1: u8 = if digit_at(digits, start, 1) { 64 } else { 0 };
    let b2: u8 = if digit_at(digits, start, 2) { 32 } else { 0 };
    let b3: u8 = if digit_at(digits, start, 3) { 16 } else { 0 };
    let b4: u8 = if digit_at(digits, start, 4) { 8 } else { 0 };
    let b5: u8 = if digit_at(digits, start, 5) { 4 } else { 0 };
    let b6: u8 = if digit_at(digits, start, 6) { 2 } else { 0 };
    let b7: u8 = if digit_at(digits, start, 7) { 1 } else { 0 };
    b0 + b1 + b2 + b3 + b4 + b5 + b6 + b7
}

/// The packed bytes of the code words of `numbers`, built the plain way:
/// all the code words are written out digit by digit, and the digits are
/// then cut into groups of eight, the last group filled up with zeros.
/// An encoder that is fed the same numbers and flushed holds the same bytes.
pub fn generate_test_output_validation(numbers: &[u16]) -> (out: Vec<u8>)
    ensures
        out@ == pack(code_bits(numbers@)),
{
    let mut digits: Vec<bool> = Vec::new();
    assert(digits@ =~= code_bits(numbers@.take(0)));
    for i in 0..numbers.len()
        invariant
            digits@ == code_bits(numbers@.take(i as int)),
    {
        let num = numbers[i];
        let ghost before = digits@;
        if num == 0 {
            digits.push(false);
        } else if num == 1 {
            digits.push(true);
            digits.push(true);
            digits.push(false);
        } else if 2 <= num && num <= 127 {
            digits.push(true);
            digits.push(true);
            digits.push(true);
            digits.push(false);
            push_binary(&mut digits, num, 7);
        } else if 127 < num && num < u16::MAX {
            digits.push(true);
            digits.push(true);
            digits.push(true);
            digits.push(true);
            push_binary(&mut digits, num, 11);
        } else {
            digits.push(true);
            digits.push(false);
        }
        proof {
            assert(digits@ =~= before + code_word(num));
            lemma_code_bits_push(numbers@.take(i as int), num);
            assert(numbers@.take(i + 1) =~= numbers@.take(i as int).push(num));
        }
    }
    assert(numbers@.take(numbers.len() as int) =~= numbers@);

    let groups = digits.len() / 8 + (if digits.len() % 8 == 0 {
        0
    } else {
        1
    });
    let mut out: Vec<u8> = Vec::new();
    for j in 0..groups
        invariant
            groups == (digits@.len() + 7) / 8,
            digits@.len() <= usize::MAX,
            out@ == pack(digits@).take(j as int),
    {
        out.push(group_byte(&digits, 8 * j));
        assert(out@ =~= pack(digits@).take(j + 1));
    }
    assert(pack(digits@).take(groups as int) =~= pack(digits@));
    out
}

} // verus!
