//! Texts of numbers and names.

use ltop::bytes::{
    ends_with, eq_bytes, f1_wide, f2, ieq, name_hash, pad_left, pad_right, pad_zero, repeat,
    split_ascii_whitespace, split_lines, starts_with, to_printable, u32d,
};
use ltop::twrite::{decimal_digits, digit_count, write_u32, Put, TinyWriter};

fn put_to_string<P: Put>(p: &P) -> String {
    let mut v: Vec<u8> = Vec::new();
    p.put(&mut v);
    String::from_utf8(v).unwrap()
}

#[test]
fn name_hash_folds_ascii_case_only() {
    assert_eq!(name_hash(b"Finder"), name_hash(b"finder"));
    assert_eq!(name_hash(b"THINGS3"), name_hash(b"things3"));
    assert_ne!(name_hash(b"finder"), name_hash(b"finder "));
    assert_ne!(name_hash(b"ab"), name_hash(b"ba"));
    assert_ne!(name_hash(b""), name_hash(b"a"));
}

#[test]
fn u32d_basic() {
    assert_eq!(put_to_string(&u32d(42)), "42");
}

#[test]
fn u32d_zero() {
    assert_eq!(put_to_string(&u32d(0)), "0");
}

#[test]
fn pad_right_pads_with_spaces() {
    assert_eq!(put_to_string(&pad_right(42, 5)), "   42");
    assert_eq!(put_to_string(&pad_right(12345, 3)), "12345");
}

#[test]
fn pad_zero_pads_with_zeros() {
    assert_eq!(put_to_string(&pad_zero(7, 3)), "007");
}

#[test]
fn pad_left_pads_right_with_spaces() {
    assert_eq!(put_to_string(&pad_left(42, 5)), "42   ");
}

#[test]
fn f1_wide_rounds_and_pads() {
    assert_eq!(put_to_string(&f1_wide(314, 100, 4)), " 3.1");
    assert_eq!(put_to_string(&f1_wide(0, 1, 3)), "0.0");
}

#[test]
fn f2_two_decimals() {
    assert_eq!(put_to_string(&f2(123, 100)), "1.23");
    assert_eq!(put_to_string(&f2(1, 2)), "0.50");
}

#[test]
fn ratios_are_rounded_to_the_nearest() {
    assert_eq!(put_to_string(&f1_wide(349, 100, 0)), "3.5");
    assert_eq!(put_to_string(&f1_wide(344, 100, 0)), "3.4");
    assert_eq!(put_to_string(&f1_wide(1, 20, 0)), "0.1");
    assert_eq!(put_to_string(&f2(2, 3)), "0.67");
    assert_eq!(put_to_string(&f1_wide(12_345, 1, 6)), "12345.0");
}

#[test]
fn repeat_char() {
    assert_eq!(put_to_string(&repeat('-', 5)), "-----");
    assert_eq!(put_to_string(&repeat('─', 3)), "───");
    assert_eq!(put_to_string(&repeat('a', 0)), "");
}

#[test]
fn repeat_encodes_every_length() {
    assert_eq!(put_to_string(&repeat('é', 2)), "éé");
    assert_eq!(put_to_string(&repeat('🌳', 2)), "🌳🌳");
}

#[test]
fn decimals_at_the_limits() {
    assert_eq!(put_to_string(&u32d(u32::MAX)), "4294967295");
    assert_eq!(decimal_digits(u64::MAX), b"18446744073709551615".to_vec());
    assert_eq!(digit_count(9), 1);
    assert_eq!(digit_count(10), 2);
    assert_eq!(digit_count(u32::MAX), 10);
    let mut v: Vec<u8> = Vec::new();
    write_u32(&mut v, 1234567890);
    assert_eq!(v, b"1234567890".to_vec());
}

#[test]
fn words_and_lines() {
    assert_eq!(split_ascii_whitespace(b"  a bc\t\nd "), vec![&b"a"[..], b"bc", b"d"]);
    assert_eq!(split_ascii_whitespace(b" \t "), Vec::<&[u8]>::new());
    assert_eq!(split_lines(b"a\n\nb"), vec![&b"a"[..], b"", b"b"]);
    assert_eq!(split_lines(b"a\nb\n"), vec![&b"a"[..], b"b"]);
    assert_eq!(split_lines(b"a\r\n\n"), vec![&b"a\r"[..], b""]);
    assert_eq!(split_lines(b"\n"), vec![&b""[..]]);
    assert_eq!(split_lines(b""), Vec::<&[u8]>::new());
}

#[test]
fn comparisons_of_bytes() {
    assert!(ieq(b"FiNder", b"finder"));
    assert!(!ieq(b"finder", b"finder2"));
    assert!(eq_bytes(b"ab", b"ab"));
    assert!(!eq_bytes(b"ab", b"aB"));
    assert!(starts_with(b"MemTotal: 5", b"MemTotal:"));
    assert!(!starts_with(b"Mem", b"MemTotal:"));
    assert!(ends_with(b"x.lean", b".lean"));
    assert!(!ends_with(b"lean", b".lean"));
}

#[test]
fn printable_text_keeps_ascii() {
    assert_eq!(to_printable(b"plain text"), b"plain text".to_vec());
}

#[test]
fn sinks_take_one_text_after_the_other() {
    let mut v: Vec<u8> = Vec::new();
    v.put_bytes(b"ab");
    v.put_byte(b'c');
    u32d(12).put(&mut v);
    assert_eq!(v, b"abc12".to_vec());
}

#[test]
fn full_sinks_drop_the_rest() {
    ltop::arena::scope(0, |f| {
        let mut v: ltop::arena::FVec<u8> = f.vec("test", 4);
        v.put_bytes(b"abcdef");
        assert_eq!(v.as_slice(), b"abcd");
        v.put_byte(b'x');
        assert_eq!(v.as_slice(), b"abcd");
    });
}
