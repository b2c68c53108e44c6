use torrentinfo::to_hex;

#[test]
pub fn test_to_hex() {
    assert_eq!(to_hex("foobar".as_bytes()), "666f6f626172");
}

#[test]
fn to_hex_of_nothing_is_empty() {
    assert_eq!(to_hex(&[]), "");
}

#[test]
fn to_hex_pads_each_byte_to_two_digits() {
    assert_eq!(to_hex(&[0x00, 0x0f, 0xa0, 0xff]), "000fa0ff");
}
