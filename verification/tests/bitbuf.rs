//! Bit fields.

use rdwarfs::metadata::bitbuf::BitBuf;
#[test]
fn reads_within_one_byte() {
    let b = BitBuf::new(&[0b1101_0110]);
    assert_eq!(b.read_u64(0, 1).unwrap(), 0);
    assert_eq!(b.read_u64(1, 1).unwrap(), 1);
    assert_eq!(b.read_u64(0, 4).unwrap(), 0b0110);
    assert_eq!(b.read_u64(4, 4).unwrap(), 0b1101);
    assert_eq!(b.read_u64(0, 8).unwrap(), 0b1101_0110);
}

#[test]
fn reads_across_byte_boundary() {
    let b = BitBuf::new(&[0xFF, 0x0F]);
    assert_eq!(b.read_u64(4, 8).unwrap(), 0xFF);
    assert_eq!(b.read_u64(0, 12).unwrap(), 0x0FFF);
    assert_eq!(b.read_u64(0, 16).unwrap(), 0x0FFF);
}

#[test]
fn reads_64_bit_aligned_and_unaligned() {
    let value: u64 = 0xDEAD_BEEF_CAFE_BABE;
    let mut buf = Vec::with_capacity(16);
    buf.extend([0u8; 4]);
    buf.extend(value.to_le_bytes());
    buf.extend([0u8; 4]);

    let b = BitBuf::new(&buf);
    assert_eq!(b.read_u64(32, 64).unwrap(), value);

    let bit_offset = 32 + 3;
    let shifted: u128 = u128::from(value) << 3;
    let bytes: [u8; 16] = shifted.to_le_bytes();
    let mut buf2 = Vec::with_capacity(16);
    buf2.extend([0u8; 4]);
    buf2.extend(&bytes);
    let b2 = BitBuf::new(&buf2);
    assert_eq!(b2.read_u64(bit_offset, 64).unwrap(), value);
}

#[test]
fn out_of_bounds_errors() {
    let b = BitBuf::new(&[0xFFu8; 2]);
    assert!(b.read_u64(8, 16).is_err());
    assert!(b.read_u64(0, 65).is_err());
}

#[test]
fn zero_bits_is_zero() {
    let b = BitBuf::new(&[0xFF]);
    assert_eq!(b.read_u64(3, 0).unwrap(), 0);
}

#[test]
fn sign_extends_negative_values() {
    let b = BitBuf::new(&[0xFC]);
    assert_eq!(b.read_i64(0, 3).unwrap(), -4);
    assert_eq!(b.read_i64(0, 4).unwrap(), -4);
    assert_eq!(b.read_i64(2, 6).unwrap(), -1);
}

#[test]
fn sign_extension_preserves_positive() {
    let b = BitBuf::new(&[0x05]);
    assert_eq!(b.read_i64(0, 4).unwrap(), 5);
}

#[test]
fn read_bool_basic() {
    let b = BitBuf::new(&[0b0000_0101]);
    assert!(b.read_bool(0).unwrap());
    assert!(!b.read_bool(1).unwrap());
    assert!(b.read_bool(2).unwrap());
}
