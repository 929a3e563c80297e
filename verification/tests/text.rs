use orf::decimal::{i64_to_string, parse_i64_chars, usize_to_string};
use orf::lines::{join_lines_from, split_lines};
use orf::text::{decode_hex, split_at_byte, to_hex, trim_str, HexError};

fn chars(s: &str) -> Vec<char> {
    s.chars().collect()
}

#[test]
fn numbers_are_written_in_decimal() {
    assert_eq!(i64_to_string(0), "0");
    assert_eq!(i64_to_string(-42), "-42");
    assert_eq!(i64_to_string(i64::MIN), "-9223372036854775808");
    assert_eq!(usize_to_string(1700000000), "1700000000");
}

#[test]
fn numbers_are_read_as_parse_reads_them() {
    assert_eq!(parse_i64_chars(&chars("123")), Some(123));
    assert_eq!(parse_i64_chars(&chars("+7")), Some(7));
    assert_eq!(parse_i64_chars(&chars("-9223372036854775808")), Some(i64::MIN));
    assert_eq!(parse_i64_chars(&chars("9223372036854775808")), None);
    assert_eq!(parse_i64_chars(&chars("")), None);
    assert_eq!(parse_i64_chars(&chars("-")), None);
    assert_eq!(parse_i64_chars(&chars("12a")), None);
}

#[test]
fn lines_split_as_str_lines_does() {
    let ls = split_lines(&chars("a\r\nb\n\nc\r"));
    let got: Vec<String> = ls.iter().map(|l| l.iter().collect()).collect();
    assert_eq!(got, vec!["a", "b", "", "c\r"]);
    let ls = split_lines(&chars("x\n"));
    assert_eq!(ls.len(), 1);
    let joined: String = join_lines_from(&split_lines(&chars("a\nb\nc")), 1).iter().collect();
    assert_eq!(joined, "b\nc");
}

#[test]
fn hex_goes_both_ways() {
    assert_eq!(to_hex(&[0x00, 0xab, 0x1f]), "00ab1f");
    assert_eq!(decode_hex("00AB1f"), Ok(vec![0x00, 0xab, 0x1f]));
    assert_eq!(decode_hex("abc"), Err(HexError::OddLength));
    assert_eq!(
        decode_hex("0g"),
        Err(HexError::InvalidHexCharacter { c: 'g', index: 1 })
    );
}

#[test]
fn text_is_trimmed_and_split() {
    assert_eq!(trim_str("  a b \n"), "a b");
    assert_eq!(trim_str("\u{3000}x\u{a0}"), "x");
    assert_eq!(split_at_byte("abcdef", 2), ("ab".to_string(), "cdef".to_string()));
}

#[test]
fn hex_form_decodes_back() {
    let bytes: Vec<u8> = (0u8..=255).collect();
    assert_eq!(decode_hex(&to_hex(&bytes)), Ok(bytes));
    assert_eq!(decode_hex(&to_hex(&[])), Ok(vec![]));
}

#[test]
fn text_order_is_str_order() {
    assert!(orf::text::text_before("a", "b"));
    assert!(orf::text::text_before("Z", "a"));
    assert!(orf::text::text_before("ab", "abc"));
    assert!(!orf::text::text_before("abc", "ab"));
    assert!(!orf::text::text_before("same", "same"));
    assert!(orf::text::text_before("é", "ê"));
}
