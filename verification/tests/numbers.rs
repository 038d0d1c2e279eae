use minitorrent::bytes::{key_is, narrow, same_bytes};
use minitorrent::decimal::{read_i64, read_unsigned, read_usize};

#[test]
fn unsigned_literals() {
    assert_eq!(read_unsigned(b"0", 0), Some(0));
    assert_eq!(read_unsigned(b"255", 255), Some(255));
    assert_eq!(read_unsigned(b"256", 255), None);
    assert_eq!(read_unsigned(b"0000255", 255), Some(255));
    assert_eq!(read_unsigned(b"18446744073709551615", u64::MAX), Some(u64::MAX));
    assert_eq!(read_unsigned(b"18446744073709551616", u64::MAX), None);
    assert_eq!(read_unsigned(b"", u64::MAX), None);
    assert_eq!(read_unsigned(b"-1", u64::MAX), None);
    assert_eq!(read_unsigned(b"+1", u64::MAX), None);
    assert_eq!(read_unsigned(b"1a", u64::MAX), None);
    // Out of range before the byte that is no digit is reached.
    assert_eq!(read_unsigned(b"999x", 10), None);
}

#[test]
fn signed_literals() {
    assert_eq!(read_i64(b"0"), Some(0));
    assert_eq!(read_i64(b"-0"), Some(0));
    assert_eq!(read_i64(b"42"), Some(42));
    assert_eq!(read_i64(b"-42"), Some(-42));
    assert_eq!(read_i64(b"9223372036854775807"), Some(i64::MAX));
    assert_eq!(read_i64(b"-9223372036854775808"), Some(i64::MIN));
    assert_eq!(read_i64(b"9223372036854775808"), None);
    assert_eq!(read_i64(b"-9223372036854775809"), None);
    assert_eq!(read_i64(b""), None);
    assert_eq!(read_i64(b"-"), None);
    assert_eq!(read_i64(b"--1"), None);
    assert_eq!(read_i64(b"+1"), None);
    assert_eq!(read_i64(b"1-"), None);
}

#[test]
fn lengths() {
    assert_eq!(read_usize(b"0"), Some(0));
    assert_eq!(read_usize(b"40"), Some(40));
    assert_eq!(read_usize(usize::MAX.to_string().as_bytes()), Some(usize::MAX));
    assert_eq!(read_usize(b"340282366920938463463374607431768211456"), None);
    assert_eq!(read_usize(b"-5"), None);
    assert_eq!(read_usize(b""), None);
}

#[test]
fn narrowing_keeps_the_low_32_bits() {
    assert_eq!(narrow(0), 0);
    assert_eq!(narrow(16384), 16384);
    assert_eq!(narrow(4294967295), 4294967295);
    assert_eq!(narrow(4294967296), 0);
    assert_eq!(narrow(4294967297), 1);
    assert_eq!(narrow(9999999999), 1410065407);
    assert_eq!(narrow(-1), 4294967295);
    assert_eq!(narrow(-4294967296), 0);
    assert_eq!(narrow(i64::MIN), 0);
    assert_eq!(narrow(i64::MAX), 4294967295);
}

#[test]
fn byte_equality() {
    assert!(same_bytes(b"", b""));
    assert!(same_bytes(b"info", b"info"));
    assert!(!same_bytes(b"info", b"inf"));
    assert!(!same_bytes(b"info", b"infO"));
    assert!(!same_bytes(b"xnfo", b"info"));
    assert!(key_is("piece length", "piece length"));
    assert!(!key_is("piece length", "pieces"));
    assert!(!key_is("", "name"));
}
