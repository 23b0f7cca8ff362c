use dns_resolver::client::utility::{find_first_null, get_bits_range, to_u16, to_u32, FormatError};

#[test]
fn small_bit_range() {
    let number = 0b11001100;
    assert_eq!(get_bits_range(number, 4, 8), 0b1100);
}

#[test]
fn bit_range_uses_full_mask() {
    assert_eq!(get_bits_range(0b1111_0000, 4, 8), 0b1111);
    assert_eq!(get_bits_range(0b0101_0000, 4, 8), 0b0101);
    assert_eq!(get_bits_range(0xFFFF, 0, 16), 0xFFFF);
    assert_eq!(get_bits_range(0x8000, 15, 16), 1);
    assert_eq!(get_bits_range(0x0070, 4, 7), 0b111);
}

#[test]
fn big_endian_reads() {
    assert_eq!(to_u16(&[0x12, 0x34]), 0x1234);
    assert_eq!(to_u16(&[0x00, 0x01, 0xff]), 1);
    assert_eq!(to_u32(&[0x00, 0x00, 0x02, 0x14]), 532);
    assert_eq!(to_u32(&[0xde, 0xad, 0xbe, 0xef]), 0xdeadbeef);
}

#[test]
fn first_null_position() {
    assert_eq!(find_first_null(&[3, 1, 2, 3, 0, 0]), Ok(4));
    assert_eq!(find_first_null(&[0]), Ok(0));
    assert_eq!(find_first_null(&[1, 2, 3]), Err(FormatError));
    assert_eq!(find_first_null(&[]), Err(FormatError));
}
