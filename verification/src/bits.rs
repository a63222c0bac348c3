//! The bit-level model: which bits a code word contributes to the stream,
//! and how a stream of bits is laid out in bytes.
//!
//! A stream is a `Seq<bool>`; bit 0 of the stream is the most significant bit
//! of byte 0, and a final partial byte is filled up with zero bits.

use vstd::prelude::*;

verus! {

/// Bit `j` of a 16-bit word, counted from the least significant bit.
pub open spec fn word_bit(value: u16, j: int) -> bool {
    (value >> j) & 1 == 1
}

/// Bit `k` of a byte, counted from the most significant bit.
pub open spec fn byte_bit(b: u8, k: int) -> bool {
    b & (0x80u8 >> k) != 0
}

/// The all-ones pattern of the low `width` bits of a 16-bit word.
pub open spec fn low_mask(width: nat) -> u16 {
    if width >= 16 {
        0xffff
    } else {
        ((1u16 << width) - 1) as u16
    }
}

/// The low `width` bits of `value`, most significant of them first: what one
/// code word adds to the stream.
pub open spec fn bits_of(value: u16, width: nat) -> Seq<bool> {
    Seq::new(width, |i: int| word_bit(value, width - 1 - i))
}

/// The eight bits of a byte, most significant first.
pub open spec fn byte_bits(b: u8) -> Seq<bool> {
    Seq::new(8, |k: int| byte_bit(b, k))
}

/// The first `count` bits of a byte, most significant first.
pub open spec fn head_bits(b: u8, count: nat) -> Seq<bool> {
    Seq::new(count, |k: int| byte_bit(b, k))
}

/// Whether every bit of a byte from position `from` on is zero.
pub open spec fn tail_clear(b: u8, from: nat) -> bool {
    forall|k: int| from <= k < 8 ==> !byte_bit(b, k)
}

/// The bits held in a sequence of bytes, in stream order.
pub open spec fn unpack(bytes: Seq<u8>) -> Seq<bool> {
    Seq::new(8 * bytes.len(), |i: int| byte_bit(bytes[i / 8], i % 8))
}

/// Bit `i` of a stream, where positions past the end read as zero.
pub open spec fn stream_bit(bits: Seq<bool>, i: int) -> bool {
    0 <= i < bits.len() && bits[i]
}

/// The byte made of eight bits, `b0` being the most significant.
pub open spec fn byte_from(
    b0: bool,
    b1: bool,
    b2: bool,
    b3: bool,
    b4: bool,
    b5: bool,
    b6: bool,
    b7: bool,
) -> u8 {
    ((if b0 { 128int } else { 0 }) + (if b1 { 64int } else { 0 }) + (if b2 { 32int } else { 0 })
        + (if b3 { 16int } else { 0 }) + (if b4 { 8int } else { 0 }) + (if b5 { 4int } else { 0 })
        + (if b6 { 2int } else { 0 }) + (if b7 { 1int } else { 0 })) as u8
}

/// Byte `j` of the packed form of a stream: bits `8j .. 8j + 8`, zero where
/// the stream has ended.
pub open spec fn byte_at(bits: Seq<bool>, j: int) -> u8 {
    byte_from(
        stream_bit(bits, 8 * j),
        stream_bit(bits, 8 * j + 1),
        stream_bit(bits, 8 * j + 2),
        stream_bit(bits, 8 * j + 3),
        stream_bit(bits, 8 * j + 4),
        stream_bit(bits, 8 * j + 5),
        stream_bit(bits, 8 * j + 6),
        stream_bit(bits, 8 * j + 7),
    )
}

/// The bytes that hold a stream: `ceil(len / 8)` of them, the last one padded
/// with zero bits on its low-order end.
pub open spec fn pack(bits: Seq<bool>) -> Seq<u8> {
    Seq::new((bits.len() + 7) / 8, |j: int| byte_at(bits, j))
}

/// The zero bits that fill a stream of `len` bits up to a whole byte.
pub open spec fn padding(len: nat) -> Seq<bool> {
    Seq::new(((8 - len % 8) % 8) as nat, |i: int| false)
}

/// Masking a word to `width` bits keeps exactly the bits below `width`.
pub proof fn lemma_mask_bit(value: u16, width: nat, j: int)
    requires
        width <= 16,
        0 <= j < 64,
    ensures
        word_bit(value & low_mask(width), j) == (j < width && word_bit(value, j)),
{
    let w = width as u8;
    let i = j as u8;
    assert(word_bit(value & low_mask(w as nat), i as int) == (i < w && word_bit(value, i as int)))
        by (bit_vector)
        requires
            w <= 16,
            i < 64,
    ;
}

/// Masking to `inner` bits after masking to `outer >= inner` bits is masking
/// to `inner` bits.
pub proof fn lemma_mask_mask(value: u16, outer: nat, inner: nat)
    requires
        inner <= outer <= 16,
    ensures
        (value & low_mask(outer)) & low_mask(inner) == value & low_mask(inner),
{
    let a = outer as u8;
    let b = inner as u8;
    assert((value & low_mask(a as nat)) & low_mask(b as nat) == value & low_mask(b as nat))
        by (bit_vector)
        requires
            b <= a <= 16,
    ;
}

/// The zero byte has no bit set.
pub proof fn lemma_zero_byte()
    ensures
        tail_clear(0, 0),
{
    assert forall|k: int| 0 <= k < 8 implies !byte_bit(0, k) by {
        let i = k as u8;
        assert(!byte_bit(0, i as int)) by (bit_vector);
    }
}

/// A bit of `a | b` is set where it is set in `a` or in `b`.
pub proof fn lemma_or_bit(a: u8, b: u8, k: int)
    requires
        0 <= k < 8,
    ensures
        byte_bit(a | b, k) == (byte_bit(a, k) || byte_bit(b, k)),
{
    let i = k as u8;
    assert(byte_bit(a | b, i as int) == (byte_bit(a, i as int) || byte_bit(b, i as int)))
        by (bit_vector)
        requires
            i < 8,
    ;
}

/// The low byte of `word << shift`, bit by bit.
pub proof fn lemma_shl_bit(word: u16, shift: nat, k: int)
    requires
        shift <= 8,
        0 <= k < 8,
    ensures
        byte_bit((word << shift) as u8, k) == (k + shift < 8 && word_bit(word, 7 - k - shift)),
{
    let s = shift as u8;
    let i = k as u8;
    if k + shift < 8 {
        let j = (7 - k - shift) as u8;
        assert(byte_bit((word << s) as u8, i as int) == word_bit(word, j as int)) by (bit_vector)
            requires
                i + s + j == 7,
        ;
    } else {
        assert(!byte_bit((word << s) as u8, i as int)) by (bit_vector)
            requires
                s <= 8,
                i < 8,
                i + s >= 8,
        ;
    }
}

/// The low byte of `word >> shift`, bit by bit.
pub proof fn lemma_shr_bit(word: u16, shift: nat, k: int)
    requires
        shift < 16,
        0 <= k < 8,
    ensures
        byte_bit((word >> shift) as u8, k) == word_bit(word, 7 - k + shift),
{
    let s = shift as u8;
    let i = k as u8;
    let j = (7 - k + shift) as u8;
    assert(byte_bit((word >> s) as u8, i as int) == word_bit(word, j as int)) by (bit_vector)
        requires
            s < 16,
            i < 8,
            j + i == 7 + s,
    ;
}

/// Each bit of a byte built by `byte_from` is the bit it was built from.
pub proof fn lemma_byte_from_bit(
    b0: bool,
    b1: bool,
    b2: bool,
    b3: bool,
    b4: bool,
    b5: bool,
    b6: bool,
    b7: bool,
)
    ensures
        byte_bit(byte_from(b0, b1, b2, b3, b4, b5, b6, b7), 0) == b0,
        byte_bit(byte_from(b0, b1, b2, b3, b4, b5, b6, b7), 1) == b1,
        byte_bit(byte_from(b0, b1, b2, b3, b4, b5, b6, b7), 2) == b2,
        byte_bit(byte_from(b0, b1, b2, b3, b4, b5, b6, b7), 3) == b3,
        byte_bit(byte_from(b0, b1, b2, b3, b4, b5, b6, b7), 4) == b4,
        byte_bit(byte_from(b0, b1, b2, b3, b4, b5, b6, b7), 5) == b5,
        byte_bit(byte_from(b0, b1, b2, b3, b4, b5, b6, b7), 6) == b6,
        byte_bit(byte_from(b0, b1, b2, b3, b4, b5, b6, b7), 7) == b7,
{
    assert(byte_bit(byte_from(b0, b1, b2, b3, b4, b5, b6, b7), 0) == b0 && byte_bit(
        byte_from(b0, b1, b2, b3, b4, b5, b6, b7),
        1,
    ) == b1 && byte_bit(byte_from(b0, b1, b2, b3, b4, b5, b6, b7), 2) == b2 && byte_bit(
        byte_from(b0, b1, b2, b3, b4, b5, b6, b7),
        3,
    ) == b3 && byte_bit(byte_from(b0, b1, b2, b3, b4, b5, b6, b7), 4) == b4 && byte_bit(
        byte_from(b0, b1, b2, b3, b4, b5, b6, b7),
        5,
    ) == b5 && byte_bit(byte_from(b0, b1, b2, b3, b4, b5, b6, b7), 6) == b6 && byte_bit(
        byte_from(b0, b1, b2, b3, b4, b5, b6, b7),
        7,
    ) == b7) by (bit_vector);
}

/// A byte is the byte built from its own eight bits.
pub proof fn lemma_byte_from_own_bits(b: u8)
    ensures
        byte_from(
            byte_bit(b, 0),
            byte_bit(b, 1),
            byte_bit(b, 2),
            byte_bit(b, 3),
            byte_bit(b, 4),
            byte_bit(b, 5),
            byte_bit(b, 6),
            byte_bit(b, 7),
        ) == b,
{
    assert(byte_from(
        byte_bit(b, 0),
        byte_bit(b, 1),
        byte_bit(b, 2),
        byte_bit(b, 3),
        byte_bit(b, 4),
        byte_bit(b, 5),
        byte_bit(b, 6),
        byte_bit(b, 7),
    ) == b) by (bit_vector);
}

/// Appending a byte appends its eight bits to the stream.
pub proof fn lemma_unpack_push(bytes: Seq<u8>, b: u8)
    ensures
        unpack(bytes.push(b)) == unpack(bytes) + byte_bits(b),
{
    assert(unpack(bytes.push(b)) =~= unpack(bytes) + byte_bits(b));
}

/// Byte `j` of a packed stream holds bits `8j .. 8j + 8` of the stream.
pub proof fn lemma_byte_at_bit(bits: Seq<bool>, j: int, k: int)
    requires
        0 <= k < 8,
    ensures
        byte_bit(byte_at(bits, j), k) == stream_bit(bits, 8 * j + k),
{
    lemma_byte_from_bit(
        stream_bit(bits, 8 * j),
        stream_bit(bits, 8 * j + 1),
        stream_bit(bits, 8 * j + 2),
        stream_bit(bits, 8 * j + 3),
        stream_bit(bits, 8 * j + 4),
        stream_bit(bits, 8 * j + 5),
        stream_bit(bits, 8 * j + 6),
        stream_bit(bits, 8 * j + 7),
    );
}

/// Unpacking a packed stream gives the stream back, followed by the zero
/// bits that fill its last byte.
pub proof fn lemma_unpack_pack(bits: Seq<bool>)
    ensures
        unpack(pack(bits)) == bits + padding(bits.len()),
{
    let left = unpack(pack(bits));
    let right = bits + padding(bits.len());
    assert(left.len() == right.len());
    assert forall|i: int| 0 <= i < left.len() implies left[i] == right[i] by {
        lemma_byte_at_bit(bits, i / 8, i % 8);
    }
    assert(left =~= right);
}

/// Packing the bits of whole bytes, followed by any further bits, gives
/// those bytes followed by the packed form of the further bits.
pub proof fn lemma_pack_append(bytes: Seq<u8>, tail: Seq<bool>)
    ensures
        pack(unpack(bytes) + tail) == bytes + pack(tail),
{
    let bits = unpack(bytes) + tail;
    let left = pack(bits);
    let right = bytes + pack(tail);
    assert(left.len() == right.len());
    assert forall|j: int| 0 <= j < left.len() implies left[j] == right[j] by {
        if j < bytes.len() {
            lemma_byte_from_own_bits(bytes[j]);
        } else {
            assert(right[j] == byte_at(tail, j - bytes.len()));
        }
    }
    assert(left =~= right);
}

/// Packing the bits of whole bytes gives those bytes back.
pub proof fn lemma_pack_unpack(bytes: Seq<u8>)
    ensures
        pack(unpack(bytes)) == bytes,
{
    lemma_pack_append(bytes, Seq::empty());
    assert(unpack(bytes) + Seq::<bool>::empty() =~= unpack(bytes));
    assert(bytes + pack(Seq::<bool>::empty()) =~= bytes);
}

/// The zero bits that fill the last byte do not change the packed form.
pub proof fn lemma_pack_padding(bits: Seq<bool>)
    ensures
        pack(bits + padding(bits.len())) == pack(bits),
{
    let padded = bits + padding(bits.len());
    assert(pack(padded).len() == pack(bits).len());
    assert forall|j: int| 0 <= j < pack(bits).len() implies pack(padded)[j] == pack(bits)[j] by {
        assert(pack(bits)[j] == byte_at(bits, j));
    }
    assert(pack(padded) =~= pack(bits));
}

/// The whole bytes of a stream stay as they are when more bits follow.
pub proof fn lemma_bytes_stay(bits: Seq<bool>, more: Seq<bool>)
    ensures
        pack(bits + more).take(bits.len() as int / 8) == pack(bits).take(bits.len() as int / 8),
{
    let whole = bits.len() as int / 8;
    let longer = pack(bits + more).take(whole);
    let shorter = pack(bits).take(whole);
    assert forall|j: int| 0 <= j < whole implies longer[j] == shorter[j] by {
        assert(longer[j] == byte_at(bits + more, j));
        assert(shorter[j] == byte_at(bits, j));
    }
    assert(longer =~= shorter);
}

/// Two words with the same sixteen bits are the same word.
pub proof fn lemma_word_ext(a: u16, b: u16)
    requires
        forall|j: int| 0 <= j < 16 ==> word_bit(a, j) == word_bit(b, j),
    ensures
        a == b,
{
    assert(a == b) by (bit_vector)
        requires
            word_bit(a, 0) == word_bit(b, 0),
            word_bit(a, 1) == word_bit(b, 1),
            word_bit(a, 2) == word_bit(b, 2),
            word_bit(a, 3) == word_bit(b, 3),
            word_bit(a, 4) == word_bit(b, 4),
            word_bit(a, 5) == word_bit(b, 5),
            word_bit(a, 6) == word_bit(b, 6),
            word_bit(a, 7) == word_bit(b, 7),
            word_bit(a, 8) == word_bit(b, 8),
            word_bit(a, 9) == word_bit(b, 9),
            word_bit(a, 10) == word_bit(b, 10),
            word_bit(a, 11) == word_bit(b, 11),
            word_bit(a, 12) == word_bit(b, 12),
            word_bit(a, 13) == word_bit(b, 13),
            word_bit(a, 14) == word_bit(b, 14),
            word_bit(a, 15) == word_bit(b, 15),
    ;
}

/// Shifting a word up by one and setting its lowest bit to `bit` moves every
/// bit up by one place.
pub proof fn lemma_push_bit(word: u16, bit: bool, j: int)
    requires
        0 <= j < 16,
    ensures
        word_bit((word << 1) | (if bit { 1u16 } else { 0u16 }), j) == (if j == 0 {
            bit
        } else {
            word_bit(word, j - 1)
        }),
{
    let i = j as u8;
    if j == 0 {
        assert(word_bit((word << 1) | (if bit { 1u16 } else { 0u16 }), 0) == bit) by (bit_vector);
    } else {
        let d = (j - 1) as u8;
        assert(word_bit((word << 1) | (if bit { 1u16 } else { 0u16 }), i as int) == word_bit(
            word,
            d as int,
        )) by (bit_vector)
            requires
                i < 16,
                d + 1 == i,
        ;
    }
}

/// The word made of the bits of `high` followed by the low `width` bits of
/// `low`.
pub open spec fn join_words(high: u16, low: u16, width: nat) -> u16 {
    (high << width) | (low & low_mask(width))
}

/// Bit `j` of a joined word comes from `low` below `width` and from `high`
/// above.
pub proof fn lemma_join_bit(high: u16, low: u16, width: nat, j: int)
    requires
        width <= 16,
        0 <= j < 16,
    ensures
        word_bit(join_words(high, low, width), j) == (if j < width {
            word_bit(low, j)
        } else {
            word_bit(high, j - width)
        }),
{
    let w = width as u8;
    let i = j as u8;
    if j < width {
        assert(word_bit(join_words(high, low, w as nat), i as int) == word_bit(low, i as int))
            by (bit_vector)
            requires
                i < w <= 16,
        ;
    } else {
        let d = (j - width) as u8;
        assert(word_bit(join_words(high, low, w as nat), i as int) == word_bit(high, d as int))
            by (bit_vector)
            requires
                w <= 16,
                i < 16,
                d + w == i,
        ;
    }
}

/// Bit `j` of `word >> shift` is bit `j + shift` of `word`.
pub proof fn lemma_shift_bit(word: u16, shift: nat, j: int)
    requires
        shift <= 16,
        0 <= j < 16,
    ensures
        word_bit(word >> shift, j) == word_bit(word, j + shift),
{
    let s = shift as u8;
    let i = j as u8;
    let t = (j + shift) as u8;
    assert(word_bit(word >> s, i as int) == word_bit(word, t as int)) by (bit_vector)
        requires
            s <= 16,
            i < 16,
            t == i + s,
    ;
}

/// Writing a code word with set bits above its width gives the same bits as
/// writing it masked to its width.
pub proof fn lemma_masking(value: u16, width: nat)
    requires
        width <= 16,
    ensures
        bits_of(value, width) == bits_of(value & low_mask(width), width),
{
    let masked = bits_of(value & low_mask(width), width);
    assert forall|i: int| 0 <= i < width implies bits_of(value, width)[i] == masked[i] by {
        lemma_mask_bit(value, width, width - 1 - i);
    }
    assert(bits_of(value, width) =~= masked);
}

/// Writing `high` in `high_width` bits and then `low` in `low_width` bits
/// gives the same bits as writing the two joined into one word.
pub proof fn lemma_concatenation(high: u16, high_width: nat, low: u16, low_width: nat)
    requires
        high_width + low_width <= 16,
    ensures
        bits_of(high, high_width) + bits_of(low, low_width) == bits_of(
            join_words(high, low, low_width),
            high_width + low_width,
        ),
{
    let joined = join_words(high, low, low_width);
    let width = high_width + low_width;
    let parts = bits_of(high, high_width) + bits_of(low, low_width);
    assert forall|i: int| 0 <= i < width implies bits_of(joined, width)[i] == parts[i] by {
        lemma_join_bit(high, low, low_width, width - 1 - i);
    }
    assert(parts =~= bits_of(joined, width));
}

/// Writing a code word in one piece gives the same bits as writing its
/// leading `lead` bits and then the rest, wherever the cut is made.
pub proof fn lemma_split(value: u16, width: nat, lead: nat)
    requires
        lead <= width <= 16,
    ensures
        bits_of(value, width) == bits_of(value >> ((width - lead) as nat), lead) + bits_of(
            value,
            (width - lead) as nat,
        ),
{
    let rest = (width - lead) as nat;
    let head = bits_of(value >> rest, lead);
    assert forall|i: int| 0 <= i < lead implies head[i] == bits_of(value, width)[i] by {
        lemma_shift_bit(value, rest, lead - 1 - i);
    }
    assert(bits_of(value, width) =~= head + bits_of(value, rest));
}

/// The bits of a sequence of code words, each given as its pattern and its
/// width, one after the other.
pub open spec fn stream_of(words: Seq<(u16, nat)>) -> Seq<bool>
    decreases words.len(),
{
    if words.len() == 0 {
        Seq::empty()
    } else {
        stream_of(words.drop_last()) + bits_of(words.last().0, words.last().1)
    }
}

/// The sum of the widths of a sequence of code words.
pub open spec fn total_width(words: Seq<(u16, nat)>) -> nat
    decreases words.len(),
{
    if words.len() == 0 {
        0
    } else {
        total_width(words.drop_last()) + words.last().1
    }
}

/// A sequence of code words gives as many bits as their widths add up to,
/// and packs into that number of bits divided by eight, rounded up, bytes.
pub proof fn lemma_bit_count(words: Seq<(u16, nat)>)
    ensures
        stream_of(words).len() == total_width(words),
        pack(stream_of(words)).len() == (total_width(words) + 7) / 8,
    decreases words.len(),
{
    if words.len() > 0 {
        lemma_bit_count(words.drop_last());
    }
}

} // verus!
