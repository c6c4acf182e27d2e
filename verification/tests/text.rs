use infino::numbers::{push_be, push_le, read_be, read_le};
use infino::order::sort_positions;
use infino::text::{
    from_chars, hex_digit_value, parse_decimal, push_decimal, push_hex, push_padded_decimal,
    push_signed_decimal, same_text, spells, to_chars, utf8_of_text, DecimalError,
};

fn decimal(n: u64) -> String {
    let mut text = String::new();
    push_decimal(&mut text, n);
    text
}

fn parsed(text: &str, max: u64) -> Result<u64, DecimalError> {
    let chars = to_chars(text);
    parse_decimal(&chars, 0, chars.len(), max)
}

#[test]
fn a_number_reads_back_from_its_digits() {
    for n in [0u64, 7, 10, 1234567890, u64::MAX] {
        let text = decimal(n);
        assert_eq!(text, n.to_string());
        assert_eq!(parsed(&text, u64::MAX), Ok(n));
    }
}

#[test]
fn a_number_that_is_none_is_refused() {
    assert_eq!(parsed("", u64::MAX), Err(DecimalError::Empty));
    assert_eq!(parsed("12a", u64::MAX), Err(DecimalError::InvalidDigit));
    assert!(parsed("-1", u64::MAX).is_err());
    assert!(parsed("18446744073709551616", u64::MAX).is_err());
    assert_eq!(parsed("256", 255), Err(DecimalError::Overflow));
    assert_eq!(parsed("+5", u64::MAX), Ok(5));
}

#[test]
fn a_refused_number_is_named_as_the_standard_library_names_it() {
    for text in ["", "12a", "+", "99999999999999999999"] {
        let ours = parsed(text, u64::MAX).expect_err("no number").message();
        let theirs = text.parse::<u64>().expect_err("no number").to_string();
        assert_eq!(ours, theirs, "for {text:?}");
    }
}

#[test]
fn signs_and_padding_are_written() {
    let mut text = String::new();
    push_signed_decimal(&mut text, i64::MIN);
    text.push(' ');
    push_signed_decimal(&mut text, 42);
    text.push(' ');
    push_padded_decimal(&mut text, 42, 5);
    text.push(' ');
    push_padded_decimal(&mut text, 123456, 5);
    assert_eq!(text, "-9223372036854775808 42 00042 123456");
}

#[test]
fn bytes_are_written_in_hex() {
    let mut text = String::new();
    push_hex(&mut text, &[0x00, 0x9f, 0xff]);
    assert_eq!(text, "009fff");
    assert_eq!(hex_digit_value('f'), Some(15));
    assert_eq!(hex_digit_value('F'), Some(15));
    assert_eq!(hex_digit_value('g'), None);
}

#[test]
fn characters_and_texts_are_compared() {
    let chars = to_chars("naïve");
    assert_eq!(chars.len(), 5);
    assert_eq!(from_chars(&chars, 1, 4), "aïv");
    assert!(spells(&chars, 2, 5, "ïve"));
    assert!(!spells(&chars, 2, 4, "ïve"));
    assert!(same_text("naïve", "naïve"));
    assert!(!same_text("naïve", "naive"));
    assert_eq!(utf8_of_text("ï"), vec![0xc3, 0xaf]);
}

#[test]
fn numbers_read_back_from_their_bytes() {
    let mut bytes: Vec<u8> = Vec::new();
    push_le(&mut bytes, 0x0102, 4);
    assert_eq!(bytes, vec![2, 1, 0, 0]);
    push_be(&mut bytes, 0x0a0b0c, 16);
    assert_eq!(read_le(&bytes, 0, 4), 0x0102);
    assert_eq!(read_be(&bytes, 4, 16), 0x0a0b0c);
    assert_eq!(bytes[19], 0x0c);
}

#[test]
fn positions_are_sorted_by_key_and_ties_stay_in_order() {
    assert_eq!(sort_positions(&[5, 1, 5, 0, 1]), vec![3, 1, 4, 0, 2]);
    assert!(sort_positions(&[]).is_empty());
}
