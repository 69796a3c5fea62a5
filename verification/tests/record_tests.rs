use logscan::record::{bytes_eq, copy_field, parse_byte_count, parse_decimal_field, parse_direction, parse_ts, Direction};

fn line(ts: &str, dev: &str, ap: &str, bytes: &str, dir: &str) -> Vec<u8> {
    format!("{},{},{},{},{}", ts, dev, ap, bytes, dir).into_bytes()
}

#[test]
fn decimal_field_parses_all_digit_fields() {
    assert_eq!(parse_decimal_field(b"000500"), Some(500));
    assert_eq!(parse_decimal_field(b"123456"), Some(123456));
    assert_eq!(parse_decimal_field(b"7"), Some(7));
    assert_eq!(parse_decimal_field(b"0"), Some(0));
}

#[test]
fn decimal_field_rejects_any_nondigit() {
    assert_eq!(parse_decimal_field(b""), None);
    assert_eq!(parse_decimal_field(b"x123"), None);
    assert_eq!(parse_decimal_field(b" 123"), None);
    assert_eq!(parse_decimal_field(b"42ab"), None);
    assert_eq!(parse_decimal_field(b"123 "), None);
    assert_eq!(parse_decimal_field(b"12x45"), None);
}

#[test]
fn timestamp_with_interior_nondigit_fails() {
    let l = line("16071x3201", "AABBCC:11:22:33", "001122:AA:BB:CC", "000500", "upload");
    assert_eq!(parse_ts(&l), None);
}

#[test]
fn byte_count_with_interior_nondigit_fails() {
    let l = line("1607173201", "AABBCC:11:22:33", "001122:AA:BB:CC", "5x0500", "upload");
    assert_eq!(parse_byte_count(&l), None);
}

#[test]
fn timestamp_field_is_first_ten_bytes() {
    let l = line("1607173201", "AABBCC:11:22:33", "001122:AA:BB:CC", "000500", "upload");
    assert_eq!(parse_ts(&l), Some(1607173201));
}

#[test]
fn byte_count_field_is_bytes_43_to_49() {
    let l = line("1607173201", "AABBCC:11:22:33", "001122:AA:BB:CC", "000500", "upload");
    assert_eq!(parse_byte_count(&l), Some(500));
    let l2 = line("1607173201", "AABBCC:11:22:33", "001122:AA:BB:CC", "999999", "upload");
    assert_eq!(parse_byte_count(&l2), Some(999999));
}

#[test]
fn direction_reads_byte_fifty() {
    let up = line("1607173201", "AABBCC:11:22:33", "001122:AA:BB:CC", "000500", "upload");
    assert_eq!(parse_direction(&up), Direction::Received);
    let down = line("1607173201", "AABBCC:11:22:33", "001122:AA:BB:CC", "000500", "downld");
    assert_eq!(parse_direction(&down), Direction::Sent);
}

#[test]
fn direction_labels() {
    assert_eq!(Direction::Received.label(), "received");
    assert_eq!(Direction::Sent.label(), "sent");
}

#[test]
fn copy_field_copies_the_range() {
    let l = line("1607173201", "AABBCC:11:22:33", "001122:AA:BB:CC", "000500", "upload");
    assert_eq!(copy_field(&l, 11, 26), b"AABBCC:11:22:33".to_vec());
    assert_eq!(copy_field(&l, 27, 42), b"001122:AA:BB:CC".to_vec());
}

#[test]
fn bytes_eq_compares_contents() {
    assert!(bytes_eq(b"abc", b"abc"));
    assert!(!bytes_eq(b"abc", b"abd"));
    assert!(!bytes_eq(b"abc", b"ab"));
    assert!(bytes_eq(b"", b""));
}
