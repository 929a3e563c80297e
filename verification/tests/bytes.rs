use orf::bytes::{find_zero, push_be16, push_be24, push_be32, push_be64, read_be16, read_be24, read_be32, read_be64};

#[test]
fn big_endian_numbers_round_trip() {
    let mut v = Vec::new();
    push_be16(&mut v, 0x1234);
    push_be24(&mut v, 0x0a0b0c);
    push_be32(&mut v, 0xdeadbeef);
    push_be64(&mut v, 0x0102030405060708);
    assert_eq!(&v[0..2], &[0x12, 0x34]);
    assert_eq!(&v[2..5], &[0x0a, 0x0b, 0x0c]);
    assert_eq!(read_be16(&v, 0), 0x1234);
    assert_eq!(read_be24(&v, 2), 0x0a0b0c);
    assert_eq!(read_be32(&v, 5), 0xdeadbeef);
    assert_eq!(read_be64(&v, 9), 0x0102030405060708);
}

#[test]
fn zero_bytes_are_found() {
    assert_eq!(find_zero(b"ab\0cd\0", 0), Some(2));
    assert_eq!(find_zero(b"ab\0cd\0", 3), Some(5));
    assert_eq!(find_zero(b"abc", 0), None);
}
