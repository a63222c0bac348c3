use binary_writer::bit_encoder::BitEncoder;
use binary_writer::utils::{
    encode_table, field_count, find_from, parse_line, parse_row, parse_row_fast, parse_u16,
    RowError,
};

fn row_of(counts: &[&str]) -> String {
    format!("det7,2024-01-01,{}", counts.join(","))
}

fn numbers(from: u16) -> Vec<String> {
    (0..96).map(|i| (from + i).to_string()).collect()
}

#[test]
fn fields_that_are_numbers() {
    assert_eq!(parse_u16(b"0"), Some(0));
    assert_eq!(parse_u16(b"7"), Some(7));
    assert_eq!(parse_u16(b"007"), Some(7));
    assert_eq!(parse_u16(b"+12"), Some(12));
    assert_eq!(parse_u16(b"65535"), Some(65535));
    assert_eq!(parse_u16(b"0000000000000000000065535"), Some(65535));
}

#[test]
fn fields_that_are_no_numbers() {
    assert_eq!(parse_u16(b""), None);
    assert_eq!(parse_u16(b"+"), None);
    assert_eq!(parse_u16(b"-1"), None);
    assert_eq!(parse_u16(b"-0"), None);
    assert_eq!(parse_u16(b"++1"), None);
    assert_eq!(parse_u16(b" 1"), None);
    assert_eq!(parse_u16(b"1 "), None);
    assert_eq!(parse_u16(b"1.5"), None);
    assert_eq!(parse_u16(b"12a"), None);
    assert_eq!(parse_u16(b"65536"), None);
    assert_eq!(parse_u16(b"99999999999999999999"), None);
    assert_eq!(parse_u16("٣".as_bytes()), None);
}

#[test]
fn fields_agree_with_std() {
    let fields = ["", "0", "+", "+0", "-0", "1", "65535", "65536", "655350", "0x10", "12 ", "+-1", "000"];
    for field in fields {
        assert_eq!(parse_u16(field.as_bytes()), field.parse::<u16>().ok(), "{:?}", field);
        assert_eq!(field_count(field.as_bytes()), field.parse::<u16>().unwrap_or(u16::MAX));
    }
}

#[test]
fn finding_a_separator() {
    assert_eq!(find_from(b"a,b,,c", 0, b','), 1);
    assert_eq!(find_from(b"a,b,,c", 1, b','), 1);
    assert_eq!(find_from(b"a,b,,c", 2, b','), 3);
    assert_eq!(find_from(b"a,b,,c", 4, b','), 4);
    assert_eq!(find_from(b"a,b,,c", 5, b','), 6);
    assert_eq!(find_from(b"a,b,,c", 6, b','), 6);
    assert_eq!(find_from(b"", 0, b','), 0);
}

#[test]
fn row_with_96_counts() {
    let fields = numbers(100);
    let refs: Vec<&str> = fields.iter().map(|s| s.as_str()).collect();
    let line = row_of(&refs);
    let row = parse_row_fast(&line).unwrap();
    for i in 0..96 {
        assert_eq!(row[i], 100 + i as u16);
    }
    assert_eq!(parse_line(&line), row);
    assert_eq!(parse_row(line.as_bytes()), Ok(row));
}

#[test]
fn malformed_fields_become_the_sentinel() {
    let mut fields = numbers(0);
    fields[0] = String::from("");
    fields[1] = String::from("n/a");
    fields[2] = String::from("-3");
    fields[3] = String::from("70000");
    fields[95] = String::from("x");
    let refs: Vec<&str> = fields.iter().map(|s| s.as_str()).collect();
    let row = parse_row_fast(&row_of(&refs)).unwrap();
    assert_eq!(&row[..6], &[65535, 65535, 65535, 65535, 4, 5]);
    assert_eq!(row[94], 94);
    assert_eq!(row[95], 65535);
}

#[test]
fn leading_fields_are_passed_over() {
    let fields = numbers(1);
    let refs: Vec<&str> = fields.iter().map(|s| s.as_str()).collect();
    let line = format!("12,34,{}", refs.join(","));
    let row = parse_row_fast(&line).unwrap();
    assert_eq!(row[0], 1);
    assert_eq!(row[95], 96);
}

#[test]
fn wrong_field_count_is_an_error() {
    let fields = numbers(0);
    let refs: Vec<&str> = fields.iter().map(|s| s.as_str()).collect();
    assert_eq!(parse_row_fast(&row_of(&refs[..95])), Err(RowError::WrongFieldCount));
    assert_eq!(parse_row_fast(&format!("{},1", row_of(&refs))), Err(RowError::WrongFieldCount));
    assert_eq!(parse_row_fast(&format!("{},", row_of(&refs))), Err(RowError::WrongFieldCount));
    assert_eq!(parse_row_fast(""), Err(RowError::WrongFieldCount));
    assert_eq!(parse_row_fast("a,b"), Err(RowError::WrongFieldCount));
    assert_eq!(parse_row_fast(&",".repeat(96)), Err(RowError::WrongFieldCount));
    assert_eq!(parse_row_fast(&",".repeat(98)), Err(RowError::WrongFieldCount));
    assert_eq!(parse_row_fast(&",".repeat(97)), Ok([65535; 96]));
}

fn table(lines: &[String], ending: &str) -> String {
    let mut text = String::from("detector,date,counts");
    for line in lines {
        text.push_str(ending);
        text.push_str(line);
    }
    text
}

fn expected(rows: &[Vec<u16>]) -> Vec<u8> {
    let mut encoder = BitEncoder::new();
    for row in rows {
        encoder.encode(row);
    }
    encoder.flush();
    encoder.into_bytes()
}

#[test]
fn table_rows_are_encoded_after_the_header() {
    let a = numbers(0);
    let b = numbers(500);
    let lines = vec![
        row_of(&a.iter().map(|s| s.as_str()).collect::<Vec<_>>()),
        row_of(&b.iter().map(|s| s.as_str()).collect::<Vec<_>>()),
    ];
    let want = expected(&[(0..96).collect(), (500..596).collect()]);
    for (ending, last) in [("\n", ""), ("\n", "\n"), ("\r\n", ""), ("\r\n", "\r\n")] {
        let text = format!("{}{}", table(&lines, ending), last);
        let mut encoder = BitEncoder::new();
        assert_eq!(encode_table(&text, &mut encoder), Ok(()));
        encoder.flush();
        assert_eq!(encoder.bytes(), want);
    }
}

#[test]
fn table_without_rows_encodes_nothing() {
    for text in ["", "header", "header\n", "a,b,c\r\n"] {
        let mut encoder = BitEncoder::new();
        assert_eq!(encode_table(text, &mut encoder), Ok(()));
        encoder.flush();
        assert_eq!(encoder.bytes(), Vec::<u8>::new());
    }
}

#[test]
fn table_stops_at_the_first_bad_row() {
    let a = numbers(0);
    let good = row_of(&a.iter().map(|s| s.as_str()).collect::<Vec<_>>());
    let lines = vec![good.clone(), String::from("short,row,1,2"), good.clone()];
    let mut encoder = BitEncoder::new();
    assert_eq!(encode_table(&table(&lines, "\n"), &mut encoder), Err(RowError::WrongFieldCount));
    encoder.flush();
    assert_eq!(encoder.bytes(), expected(&[(0..96).collect()]));

    let mut encoder = BitEncoder::new();
    assert_eq!(encode_table("header\n\n", &mut encoder), Err(RowError::WrongFieldCount));
}

#[test]
fn table_keeps_a_bare_carriage_return_in_the_last_line() {
    let a = numbers(0);
    let good = row_of(&a.iter().map(|s| s.as_str()).collect::<Vec<_>>());
    let text = format!("header\n{}\r", good);
    let mut encoder = BitEncoder::new();
    assert_eq!(encode_table(&text, &mut encoder), Ok(()));
    encoder.flush();
    let mut last: Vec<u16> = (0..96).collect();
    last[95] = 65535;
    assert_eq!(encoder.bytes(), expected(&[last]));
}

#[test]
fn table_lines_agree_with_std() {
    let a = numbers(3);
    let good = row_of(&a.iter().map(|s| s.as_str()).collect::<Vec<_>>());
    let texts = [
        format!("h\n{}\n{}", good, good),
        format!("h\r\n{}\r\n{}\r\n", good, good),
        format!("h\n{}\r\r\n", good),
        format!("\n{}", good),
        format!("{}\n{}", good, good),
    ];
    for text in texts {
        let mut by_line = BitEncoder::new();
        let mut failed = false;
        for line in text.lines().skip(1) {
            match parse_row_fast(line) {
                Ok(row) => by_line.encode(&row),
                Err(_) => {
                    failed = true;
                    break;
                }
            }
        }
        let mut whole = BitEncoder::new();
        assert_eq!(encode_table(&text, &mut whole).is_err(), failed);
        by_line.flush();
        whole.flush();
        assert_eq!(whole.bytes(), by_line.bytes());
    }
}

use binary_writer::utils::numbered_order;

#[test]
fn names_are_ordered_by_number() {
    assert_eq!(numbered_order(&["10", "9", "100", "1"]), vec![3, 1, 0, 2]);
    assert_eq!(numbered_order(&[]), Vec::<usize>::new());
    assert_eq!(numbered_order(&["65535", "0"]), vec![1, 0]);
}

#[test]
fn names_that_are_no_numbers_are_left_out() {
    assert_eq!(numbered_order(&["readme", "2", "", "65536", "1", "-4", "3.5"]), vec![4, 1]);
    assert_eq!(numbered_order(&["a", "b"]), Vec::<usize>::new());
}

#[test]
fn names_with_the_same_number_keep_their_order() {
    assert_eq!(numbered_order(&["7", "07", "3", "+7", "007", "03"]), vec![2, 5, 0, 1, 3, 4]);
}

#[test]
fn name_order_agrees_with_a_stable_sort() {
    let names = ["12", "x", "5", "12", "0005", "40000", "70000", "1", "+1", "5"];
    let mut want: Vec<usize> =
        (0..names.len()).filter(|&i| names[i].parse::<u16>().is_ok()).collect();
    want.sort_by_key(|&i| names[i].parse::<u16>().unwrap_or(0));
    assert_eq!(numbered_order(&names), want);
}
