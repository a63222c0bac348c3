//! Rows of counts as comma-separated text: how a line splits into fields,
//! what number a field stands for, and the 96 counts of a row.

use crate::bit_encoder::BitEncoder;
use crate::prefix_code::{code_bits, lemma_code_bits_concat, SENTINEL};
use vstd::prelude::*;
use vstd::string::StringSliceAdditionalSpecFns;

verus! {

/// The byte that separates the fields of a row.
pub const COMMA: u8 = 0x2c;

/// The byte that ends a line.
pub const NEWLINE: u8 = 0x0a;

/// The byte that may stand before the one that ends a line.
pub const CARRIAGE_RETURN: u8 = 0x0d;

/// The plus sign that may stand before a number.
pub const PLUS: u8 = 0x2b;

/// The digit zero.
pub const DIGIT_0: u8 = 0x30;

/// The digit nine.
pub const DIGIT_9: u8 = 0x39;

/// The number of leading fields of a row that are no counts.
pub const ROW_SKIPPED: usize = 2;

/// The number of counts in a row.
pub const ROW_COUNTS: usize = 96;

/// Why a line is no row.
#[derive(Clone, Copy, Debug, PartialEq, Eq, Structural)]
pub enum RowError {
    /// The line does not have two leading fields and 96 counts.
    WrongFieldCount,
}

/// The position of the first `sep` in `s`, or the length of `s` where there
/// is none.
pub open spec fn find(s: Seq<u8>, sep: u8) -> nat
    decreases s.len(),
{
    if s.len() == 0 || s[0] == sep {
        0
    } else {
        1 + find(s.drop_first(), sep)
    }
}

/// The pieces of `s` between occurrences of `sep`: one more than there are
/// occurrences, and empty where two of them meet or one stands at an end.
pub open spec fn split(s: Seq<u8>, sep: u8) -> Seq<Seq<u8>>
    decreases s.len(),
{
    let at = find(s, sep) as int;
    if at >= s.len() {
        seq![s]
    } else {
        seq![s.take(at)] + split(s.skip(at + 1), sep)
    }
}

/// Whether a byte is a decimal digit.
pub open spec fn is_digit(b: u8) -> bool {
    DIGIT_0 <= b <= DIGIT_9
}

/// The number that a run of decimal digits stands for.
pub open spec fn decimal(digits: Seq<u8>) -> nat
    decreases digits.len(),
{
    if digits.len() == 0 {
        0
    } else {
        10 * decimal(digits.drop_last()) + (digits.last() - DIGIT_0) as nat
    }
}

/// A field without the plus sign that may stand at its front.
pub open spec fn unsigned_part(field: Seq<u8>) -> Seq<u8> {
    if field.len() > 0 && field[0] == PLUS {
        field.skip(1)
    } else {
        field
    }
}

/// The number that a field stands for: an optional plus sign and then one
/// or more decimal digits whose number is at most 65535. Every other field
/// stands for no number.
pub open spec fn number_of(field: Seq<u8>) -> Option<u16> {
    let digits = unsigned_part(field);
    if digits.len() > 0 && (forall|i: int| 0 <= i < digits.len() ==> is_digit(#[trigger] digits[i]))
        && decimal(digits) <= 65535 {
        Some(decimal(digits) as u16)
    } else {
        None
    }
}

/// The count that a field stands for: its number, or the sentinel where it
/// stands for none.
pub open spec fn field_value(field: Seq<u8>) -> u16 {
    match number_of(field) {
        Some(number) => number,
        None => SENTINEL,
    }
}

/// `find` gives the first position that holds `sep`.
pub proof fn lemma_find(s: Seq<u8>, sep: u8, at: int)
    requires
        0 <= at <= s.len(),
        forall|i: int| 0 <= i < at ==> s[i] != sep,
        at == s.len() || s[at] == sep,
    ensures
        find(s, sep) == at,
    decreases at,
{
    if at > 0 {
        lemma_find(s.drop_first(), sep, at - 1);
    }
}

/// A longer run of digits stands for no smaller number.
pub proof fn lemma_decimal_grows(digits: Seq<u8>, shorter: int)
    requires
        0 <= shorter <= digits.len(),
    ensures
        decimal(digits.take(shorter)) <= decimal(digits),
    decreases digits.len(),
{
    if shorter == digits.len() {
        assert(digits.take(shorter) =~= digits);
    } else {
        lemma_decimal_grows(digits.drop_last(), shorter);
        assert(digits.drop_last().take(shorter) =~= digits.take(shorter));
    }
}

/// The first position at or after `from` that holds `sep`, or the length of
/// `s` where there is none.
pub fn find_from(s: &[u8], from: usize, sep: u8) -> (at: usize)
    requires
        from <= s@.len(),
    ensures
        from <= at <= s@.len(),
        at == from + find(s@.skip(from as int), sep),
{
    let mut at = from;
    while at < s.len() && s[at] != sep
        invariant
            from <= at <= s@.len(),
            forall|i: int| from <= i < at ==> s@[i] != sep,
        decreases s@.len() - at,
    {
        at += 1;
    }
    proof {
        lemma_find(s@.skip(from as int), sep, at - from);
    }
    at
}

/// The number that a field stands for, if it stands for one.
pub fn parse_u16(field: &[u8]) -> (number: Option<u16>)
    ensures
        number == number_of(field@),
{
    let start: usize = if field.len() > 0 && field[0] == PLUS {
        1
    } else {
        0
    };
    let ghost digits = unsigned_part(field@);
    assert(digits =~= field@.skip(start as int));
    if start == field.len() {
        return None;
    }
    let mut acc: u32 = 0;
    assert(digits.take(0) =~= Seq::<u8>::empty());
    for i in start..field.len()
        invariant
            start <= 1,
            start < field@.len(),
            digits == field@.skip(start as int),
            digits == unsigned_part(field@),
            forall|k: int| 0 <= k < i - start ==> is_digit(#[trigger] digits[k]),
            acc == decimal(digits.take(i - start)),
            acc <= 65535,
    {
        let b = field[i];
        assert(b == digits[i - start]);
        if b < DIGIT_0 || b > DIGIT_9 {
            return None;
        }
        proof {
            assert(digits.take(i - start + 1).drop_last() =~= digits.take(i - start));
        }
        acc = acc * 10 + (b - DIGIT_0) as u32;
        if acc > 65535 {
            proof {
                lemma_decimal_grows(digits, i - start + 1);
            }
            return None;
        }
    }
    assert(digits.take(field@.len() - start) =~= digits);
    Some(acc as u16)
}

/// Whether a line is a row: two leading fields and then 96 counts.
pub open spec fn row_ok(line: Seq<u8>) -> bool {
    split(line, COMMA).len() == ROW_SKIPPED + ROW_COUNTS
}

/// The 96 counts of a row: the values of its fields after the first two.
pub open spec fn row_values(line: Seq<u8>) -> Seq<u16> {
    Seq::new(ROW_COUNTS as nat, |i: int| field_value(split(line, COMMA)[i + ROW_SKIPPED]))
}

/// A line splits into its first field and the fields of what follows the
/// first separator.
pub proof fn lemma_split_first(s: Seq<u8>, sep: u8)
    ensures
        split(s, sep).len() >= 1,
        split(s, sep)[0] == s.take(find(s, sep) as int),
        find(s, sep) <= s.len(),
        find(s, sep) < s.len() ==> split(s, sep) == seq![s.take(find(s, sep) as int)] + split(
            s.skip(find(s, sep) as int + 1),
            sep,
        ),
        find(s, sep) >= s.len() ==> split(s, sep) == seq![s],
    decreases s.len(),
{
    if s.len() == 0 || s[0] == sep {
    } else {
        lemma_split_first(s.drop_first(), sep);
    }
    if find(s, sep) >= s.len() {
        assert(s.take(find(s, sep) as int) =~= s);
    }
}

/// The counts of a row, or the error where the line is no row. A field that
/// stands for no number gives the sentinel.
pub fn parse_row(line: &[u8]) -> (row: Result<[u16; 96], RowError>)
    ensures
        match row {
            Ok(counts) => row_ok(line@) && counts@ == row_values(line@),
            Err(error) => !row_ok(line@) && error == RowError::WrongFieldCount,
        },
{
    let mut counts = [0u16;96];
    let mut fields: usize = 0;
    let mut start: usize = 0;
    let ghost mut done: Seq<Seq<u8>> = Seq::empty();
    assert(line@.skip(0) =~= line@);
    assert(done + split(line@, COMMA) =~= split(line@, COMMA));
    loop
        invariant_except_break
            start <= line@.len(),
            split(line@, COMMA) == done + split(line@.skip(start as int), COMMA),
        invariant
            fields <= 98,
            done.len() == fields,
            forall|i: int| 0 <= i < 96 && i + 2 < fields ==> counts@[i] == field_value(done[i + 2]),
        ensures
            split(line@, COMMA) == done,
        decreases line@.len() - start,
    {
        let end = find_from(line, start, COMMA);
        let ghost rest = line@.skip(start as int);
        proof {
            lemma_split_first(rest, COMMA);
            assert(rest.take(end - start) =~= line@.subrange(start as int, end as int));
            if end < line@.len() {
                assert(rest.skip(end - start + 1) =~= line@.skip(end + 1));
            }
        }
        if fields >= 98 {
            return Err(RowError::WrongFieldCount);
        }
        if fields >= 2 {
            counts[fields - 2] = field_count(&line[start..end]);
        }
        proof {
            done = done.push(line@.subrange(start as int, end as int));
        }
        fields += 1;
        if end == line.len() {
            proof {
                assert(done =~= split(line@, COMMA));
            }
            break;
        }
        start = end + 1;
        assert(split(line@, COMMA) =~= done + split(line@.skip(start as int), COMMA));
    }
    if fields == 98 {
        assert(counts@ =~= row_values(line@));
        Ok(counts)
    } else {
        Err(RowError::WrongFieldCount)
    }
}

/// The count that a field stands for.
pub fn field_count(field: &[u8]) -> (count: u16)
    ensures
        count == field_value(field@),
{
    match parse_u16(field) {
        Some(number) => number,
        None => SENTINEL,
    }
}

/// The counts of a row given as text, or the error where the line is no row.
pub fn parse_row_fast(line: &str) -> (row: Result<[u16; 96], RowError>)
    ensures
        match row {
            Ok(counts) => row_ok(line.spec_bytes()) && counts@ == row_values(line.spec_bytes()),
            Err(error) => !row_ok(line.spec_bytes()) && error == RowError::WrongFieldCount,
        },
{
    parse_row(line.as_bytes())
}

/// The counts of a line that is known to be a row.
pub fn parse_line(line: &str) -> (counts: [u16; 96])
    requires
        row_ok(line.spec_bytes()),
    ensures
        counts@ == row_values(line.spec_bytes()),
{
    match parse_row(line.as_bytes()) {
        Ok(counts) => counts,
        Err(_) => vstd::pervasive::unreached(),
    }
}

/// A line without the carriage return that may stand at its end.
pub open spec fn strip_cr(line: Seq<u8>) -> Seq<u8> {
    if line.len() > 0 && line.last() == CARRIAGE_RETURN {
        line.drop_last()
    } else {
        line
    }
}

/// The lines of a text. A line ends with a newline, or with a carriage
/// return and a newline, neither of which belongs to it; the last line may
/// end with the text instead, and then keeps a carriage return at its end.
pub open spec fn lines_of(text: Seq<u8>) -> Seq<Seq<u8>>
    decreases text.len(),
{
    let at = find(text, NEWLINE) as int;
    if text.len() == 0 {
        Seq::empty()
    } else if at >= text.len() {
        seq![text]
    } else {
        seq![strip_cr(text.take(at))] + lines_of(text.skip(at + 1))
    }
}

/// The lines of a table after its header line.
pub open spec fn data_lines(text: Seq<u8>) -> Seq<Seq<u8>> {
    if lines_of(text).len() == 0 {
        Seq::empty()
    } else {
        lines_of(text).drop_first()
    }
}

/// Whether every line is a row.
pub open spec fn table_ok(lines: Seq<Seq<u8>>) -> bool {
    forall|i: int| 0 <= i < lines.len() ==> row_ok(#[trigger] lines[i])
}

/// The counts of the rows before the first line that is no row, row after
/// row.
pub open spec fn table_values(lines: Seq<Seq<u8>>) -> Seq<u16>
    decreases lines.len(),
{
    if lines.len() == 0 || !row_ok(lines.first()) {
        Seq::empty()
    } else {
        row_values(lines.first()) + table_values(lines.drop_first())
    }
}

/// Encodes the rows of a table given as text: the first line is a header
/// and is passed over, every other line is a row whose 96 counts are
/// encoded. Stops with the error at the first line that is no row; the
/// rows before it have been encoded.
pub fn encode_table(text: &str, bit_encoder: &mut BitEncoder) -> (done: Result<(), RowError>)
    requires
        old(bit_encoder).wf(),
    ensures
        final(bit_encoder).wf(),
        final(bit_encoder)@ == old(bit_encoder)@ + code_bits(
            table_values(data_lines(text.spec_bytes())),
        ),
        done is Ok <==> table_ok(data_lines(text.spec_bytes())),
        done is Err ==> done == Err::<(), RowError>(RowError::WrongFieldCount),
{
    let bytes = text.as_bytes();
    let ghost before = bit_encoder@;
    let ghost lines = data_lines(bytes@);
    let header_end = find_from(bytes, 0, NEWLINE);
    assert(bytes@.skip(0) =~= bytes@);
    if header_end == bytes.len() {
        assert(before + code_bits(table_values(lines)) =~= before);
        return Ok(());
    }
    let mut start = header_end + 1;
    assert(lines =~= lines_of(bytes@.skip(start as int)));
    while start < bytes.len()
        invariant
            start <= bytes@.len(),
            bit_encoder.wf(),
            before == old(bit_encoder)@,
            lines == data_lines(text.spec_bytes()),
            table_ok(lines) == table_ok(lines_of(bytes@.skip(start as int))),
            before + code_bits(table_values(lines)) == bit_encoder@ + code_bits(
                table_values(lines_of(bytes@.skip(start as int))),
            ),
        decreases bytes@.len() - start,
    {
        let ghost rest = bytes@.skip(start as int);
        let ghost written = bit_encoder@;
        let newline = find_from(bytes, start, NEWLINE);
        let mut end = newline;
        if newline < bytes.len() && end > start && bytes[end - 1] == CARRIAGE_RETURN {
            end -= 1;
        }
        let next = if newline < bytes.len() {
            newline + 1
        } else {
            newline
        };
        let ghost line = bytes@.subrange(start as int, end as int);
        let ghost more = lines_of(bytes@.skip(next as int));
        proof {
            if newline < bytes@.len() {
                assert(rest.take(newline - start) =~= bytes@.subrange(
                    start as int,
                    newline as int,
                ));
                assert(strip_cr(rest.take(newline - start)) =~= line);
                assert(rest.skip(newline - start + 1) =~= bytes@.skip(next as int));
            } else {
                assert(rest =~= line);
                assert(more =~= Seq::<Seq<u8>>::empty());
            }
            assert(lines_of(rest) =~= seq![line] + more);
            assert((seq![line] + more).drop_first() =~= more);
            assert(table_ok(lines_of(rest)) == (row_ok(line) && table_ok(more))) by {
                if row_ok(line) && table_ok(more) {
                    assert forall|i: int| 0 <= i < lines_of(rest).len() implies row_ok(
                        #[trigger] lines_of(rest)[i],
                    ) by {
                        if i > 0 {
                            assert(lines_of(rest)[i] == more[i - 1]);
                        }
                    }
                } else if table_ok(lines_of(rest)) {
                    assert(row_ok(lines_of(rest)[0]));
                    assert forall|i: int| 0 <= i < more.len() implies row_ok(#[trigger] more[i]) by {
                        assert(more[i] == lines_of(rest)[i + 1]);
                    }
                }
            }
        }
        match parse_row(&bytes[start..end]) {
            Ok(counts) => {
                bit_encoder.encode(&counts);
                proof {
                    lemma_code_bits_concat(row_values(line), table_values(more));
                    assert(written + code_bits(row_values(line) + table_values(more)) =~= (written
                        + code_bits(row_values(line))) + code_bits(table_values(more)));
                }
            },
            Err(error) => {
                assert(written + code_bits(table_values(lines_of(rest))) =~= written);
                return Err(error);
            },
        }
        start = next;
    }
    assert(bytes@.skip(start as int) =~= Seq::<u8>::empty());
    assert(bit_encoder@ + code_bits(table_values(lines_of(bytes@.skip(start as int))))
        =~= bit_encoder@);
    Ok(())
}

/// Whether a name with number `a.0` at position `a.1` comes before one
/// with number `b.0` at position `b.1`: by number, and by position where
/// the numbers are the same.
pub open spec fn comes_before(a: (u16, usize), b: (u16, usize)) -> bool {
    a.0 < b.0 || (a.0 == b.0 && a.1 < b.1)
}

/// Whether a name is a number.
pub open spec fn is_numbered(name: &str) -> bool {
    number_of(name.spec_bytes()) is Some
}

/// The number and the position of the name at `position`.
pub open spec fn numbered(names: Seq<&str>, position: usize) -> (u16, usize) {
    (number_of(names[position as int].spec_bytes()).unwrap(), position)
}

/// Whether some entry stands for `position`.
spec fn holds(entries: Seq<(u16, usize)>, position: int) -> bool {
    exists|k: int| 0 <= k < entries.len() && (#[trigger] entries[k]).1 == position
}

/// The positions of the names that are numbers, ordered by number. Names
/// with the same number keep the order they came in; names that are no
/// numbers are left out.
pub fn numbered_order(names: &[&str]) -> (order: Vec<usize>)
    ensures
        forall|k: int|
            0 <= k < order@.len() ==> (#[trigger] order@[k]) < names@.len() && is_numbered(
                names@[order@[k] as int],
            ),
        forall|i: int|
            0 <= i < names@.len() && is_numbered(#[trigger] names@[i]) ==> order@.contains(
                i as usize,
            ),
        forall|j: int, k: int|
            0 <= j < k < order@.len() ==> comes_before(
                numbered(names@, #[trigger] order@[j]),
                numbered(names@, #[trigger] order@[k]),
            ),
{
    let mut entries: Vec<(u16, usize)> = Vec::new();
    for i in 0..names.len()
        invariant
            forall|k: int|
                0 <= k < entries@.len() ==> (#[trigger] entries@[k]).1 < i && number_of(
                    names@[entries@[k].1 as int].spec_bytes(),
                ) == Some(entries@[k].0),
            forall|p: int| 0 <= p < i && is_numbered(#[trigger] names@[p]) ==> holds(entries@, p),
            forall|j: int, k: int|
                0 <= j < k < entries@.len() ==> comes_before(
                    #[trigger] entries@[j],
                    #[trigger] entries@[k],
                ),
    {
        if let Some(number) = parse_u16(names[i].as_bytes()) {
            let mut at: usize = 0;
            while at < entries.len() && entries[at].0 <= number
                invariant
                    at <= entries@.len(),
                    forall|k: int| 0 <= k < at ==> (#[trigger] entries@[k]).0 <= number,
                decreases entries@.len() - at,
            {
                at += 1;
            }
            let ghost before = entries@;
            entries.insert(at, (number, i));
            proof {
                assert(entries@.len() == before.len() + 1);
                assert forall|k: int| 0 <= k < entries@.len() implies #[trigger] entries@[k] == (
                if k < at {
                    before[k]
                } else if k == at {
                    (number, i)
                } else {
                    before[k - 1]
                }) by {}
                assert forall|p: int| 0 <= p < i + 1 && is_numbered(
                    #[trigger] names@[p],
                ) implies holds(entries@, p) by {
                    if p < i {
                        assert(holds(before, p));
                        let k = choose|k: int| 0 <= k < before.len() && (#[trigger] before[k]).1 == p;
                        if k < at {
                            assert(entries@[k].1 == p);
                        } else {
                            assert(entries@[k + 1].1 == p);
                        }
                    } else {
                        assert(entries@[at as int].1 == p);
                    }
                }
                assert forall|j: int, k: int| 0 <= j < k < entries@.len() implies comes_before(
                    #[trigger] entries@[j],
                    #[trigger] entries@[k],
                ) by {
                    if k == at {
                        assert(before[j].0 <= number);
                    } else if j == at {
                        assert(comes_before(before[at as int], before[k - 1]) || at == k - 1);
                    } else if j < at && k > at {
                        assert(comes_before(before[j], before[k - 1]));
                    } else if j > at {
                        assert(comes_before(before[j - 1], before[k - 1]));
                    }
                }
            }
        }
    }
    let mut order: Vec<usize> = Vec::new();
    for k in 0..entries.len()
        invariant
            order@.len() == k,
            forall|j: int| 0 <= j < k ==> #[trigger] order@[j] == entries@[j].1,
    {
        order.push(entries[k].1);
    }
    proof {
        assert forall|i: int| 0 <= i < names@.len() && is_numbered(
            #[trigger] names@[i],
        ) implies order@.contains(i as usize) by {
            assert(holds(entries@, i));
            let k = choose|k: int| 0 <= k < entries@.len() && (#[trigger] entries@[k]).1 == i;
            assert(order@[k] == i as usize);
        }
        assert forall|j: int, k: int| 0 <= j < k < order@.len() implies comes_before(
            numbered(names@, #[trigger] order@[j]),
            numbered(names@, #[trigger] order@[k]),
        ) by {
            assert(comes_before(entries@[j], entries@[k]));
        }
    }
    order
}

} // verus!
