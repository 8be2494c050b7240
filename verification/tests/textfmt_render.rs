//! Tests of the integer renderers.

use bpx::textfmt::dec_u64;
use bpx::textfmt::hex_byte;
use bpx::textfmt::hex_u64;

#[test]
fn test_hex_rendering() {
    assert_eq!(hex_u64(0), "0");
    assert_eq!(hex_u64(10), "a");
    assert_eq!(hex_u64(255), "ff");
    assert_eq!(hex_u64(0xdeadbeef), "deadbeef");
    assert_eq!(hex_u64(u64::MAX), "ffffffffffffffff");
}

#[test]
fn test_hex_byte_rendering() {
    assert_eq!(hex_byte(0x00), "00");
    assert_eq!(hex_byte(0x0f), "0f");
    assert_eq!(hex_byte(0xff), "ff");
    assert_eq!(hex_byte(0xa5), "a5");
}

#[test]
fn test_dec_rendering() {
    assert_eq!(dec_u64(0), "0");
    assert_eq!(dec_u64(7), "7");
    assert_eq!(dec_u64(12345), "12345");
    assert_eq!(dec_u64(u64::MAX), "18446744073709551615");
}
