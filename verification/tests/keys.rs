use artful::ArtKey;

#[test]
fn unsigned_keys_give_little_endian_bytes() {
    assert_eq!(0xabu8.get_bytes(), vec![0xab]);
    assert_eq!(0x0102u16.get_bytes(), vec![0x02, 0x01]);
    assert_eq!(0x01020304u32.get_bytes(), vec![0x04, 0x03, 0x02, 0x01]);
    assert_eq!(
        0x0102030405060708u64.get_bytes(),
        vec![0x08, 0x07, 0x06, 0x05, 0x04, 0x03, 0x02, 0x01]
    );
}

#[test]
fn signed_keys_give_the_bytes_of_their_representation() {
    assert_eq!((-1i8).get_bytes(), vec![0xff]);
    assert_eq!((-2i16).get_bytes(), vec![0xfe, 0xff]);
    assert_eq!((-2i32).get_bytes(), vec![0xfe, 0xff, 0xff, 0xff]);
    assert_eq!(i64::MIN.get_bytes(), vec![0, 0, 0, 0, 0, 0, 0, 0x80]);
    assert_eq!(1i32.get_bytes(), 1i32.to_ne_bytes().to_vec());
}

#[test]
fn string_keys_give_their_bytes() {
    assert_eq!("ab".to_string().get_bytes(), vec![97, 98]);
    assert_eq!(String::new().get_bytes(), Vec::<u8>::new());
    assert_eq!("é".to_string().get_bytes(), vec![0xc3, 0xa9]);
}
