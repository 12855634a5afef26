use radix_trie::Decomposable;

#[test]
fn string_decomposes_into_chars() {
    let parts = String::from("abc").decompose();
    assert_eq!(parts, vec!['a', 'b', 'c']);
    let empty = String::new().decompose();
    assert_eq!(empty, Vec::<char>::new());
}

#[test]
fn unsigned_decompose_big_endian() {
    assert_eq!(456u16.decompose(), vec![0x01, 0xc8]);
    assert_eq!(0u16.decompose(), vec![0x00, 0x00]);
    assert_eq!(0x0102_0304u32.decompose(), vec![1, 2, 3, 4]);
    assert_eq!(u32::MAX.decompose(), vec![0xff, 0xff, 0xff, 0xff]);
    assert_eq!(
        0x0102_0304_0506_0708u64.decompose(),
        vec![1, 2, 3, 4, 5, 6, 7, 8]
    );
    assert_eq!(
        1u128.decompose(),
        vec![0, 0, 0, 0, 0, 0, 0, 0, 0, 0, 0, 0, 0, 0, 0, 1]
    );
}

#[test]
fn signed_decompose_as_two_complement() {
    assert_eq!((-1i16).decompose(), vec![0xff, 0xff]);
    assert_eq!(456i16.decompose(), vec![0x01, 0xc8]);
    assert_eq!((-2i32).decompose(), vec![0xff, 0xff, 0xff, 0xfe]);
    assert_eq!(i64::MIN.decompose(), vec![0x80, 0, 0, 0, 0, 0, 0, 0]);
    assert_eq!((-1i128).decompose(), vec![0xff; 16]);
}

#[test]
fn decompose_matches_std_encoding() {
    assert_eq!(456u16.decompose(), 456u16.to_be_bytes().to_vec());
    assert_eq!(987654321u32.decompose(), 987654321u32.to_be_bytes().to_vec());
    assert_eq!(
        (-987654321i64).decompose(),
        (-987654321i64).to_be_bytes().to_vec()
    );
    assert_eq!(
        340282366920938463463374607431768211455u128.decompose(),
        u128::MAX.to_be_bytes().to_vec()
    );
}
