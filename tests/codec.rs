use kelk::codec::{decode_from, encode_into, Codec};
use kelk::header::Header;

#[derive(PartialEq, Eq, Debug)]
struct Foo {
    a: u16,
    b: [u8; 3],
}

#[test]
fn codec_integer() {
    let v1: i32 = 0xabcdef;
    let v2: i64 = 0xabcdefabcdef;

    let mut b1 = [0u8; 4];
    let mut b2 = [0u8; 8];
    assert_eq!(i32::packed_len(), 4);
    assert_eq!(i64::packed_len(), 8);

    v1.to_bytes(&mut b1);
    v2.to_bytes(&mut b2);

    assert_eq!(i32::from_bytes(&b1), v1);
    assert_eq!(i64::from_bytes(&b2), v2);
}

#[test]
fn codec_array() {
    let v1: [u8; 6] = [0, 1, 2, 3, 4, 5];
    let v2: [u8; 12] = [0, 1, 2, 3, 4, 5, 6, 7, 8, 9, 10, 11];

    let mut b1 = [0u8; 6];
    let mut b2 = [0u8; 12];

    v1.to_bytes(&mut b1);
    v2.to_bytes(&mut b2);

    assert_eq!(<[u8; 6]>::from_bytes(&v1), v1);
    assert_eq!(<[u8; 12]>::from_bytes(&v2), v2);
    assert_eq!(b1, v1);
    assert_eq!(b2, v2);
}

#[test]
fn codec_struct() {
    let foo = Foo {
        a: 32,
        b: [1, 2, 3],
    };

    // a record is its fields' encodings, in order, with no padding
    let width = (u16::packed_len() + <[u8; 3]>::packed_len()) as usize;
    assert_eq!(width, 5);
    let mut b1 = [0u8; 5];
    encode_into(&foo.a, &mut b1, 0);
    encode_into(&foo.b, &mut b1, 2);
    assert_eq!(b1, [0, 32, 1, 2, 3]);

    let back = Foo {
        a: decode_from(&b1, 0),
        b: decode_from(&b1, 2),
    };
    assert_eq!(back, foo);
}

#[test]
fn integers_are_big_endian() {
    let mut b = [0u8; 4];
    0x01020304u32.to_bytes(&mut b);
    assert_eq!(b, [1, 2, 3, 4]);

    let mut b = [0u8; 2];
    (-2i16).to_bytes(&mut b);
    assert_eq!(b, [0xff, 0xfe]);
    assert_eq!(i16::from_bytes(&b), -2);
}

#[test]
fn integer_round_trips_at_every_width() {
    let mut b1 = [0u8; 1];
    200u8.to_bytes(&mut b1);
    assert_eq!(u8::from_bytes(&b1), 200);
    (-100i8).to_bytes(&mut b1);
    assert_eq!(i8::from_bytes(&b1), -100);

    let mut b2 = [0u8; 2];
    0xbeefu16.to_bytes(&mut b2);
    assert_eq!(u16::from_bytes(&b2), 0xbeef);

    let mut b8 = [0u8; 8];
    u64::MAX.to_bytes(&mut b8);
    assert_eq!(u64::from_bytes(&b8), u64::MAX);

    let mut b16 = [0u8; 16];
    let big: u128 = 0x0102030405060708090a0b0c0d0e0f10;
    big.to_bytes(&mut b16);
    assert_eq!(b16[0], 1);
    assert_eq!(b16[15], 0x10);
    assert_eq!(u128::from_bytes(&b16), big);
    i128::MIN.to_bytes(&mut b16);
    assert_eq!(i128::from_bytes(&b16), i128::MIN);
}

#[test]
fn bool_decodes_leniently() {
    let mut b = [7u8; 1];
    true.to_bytes(&mut b);
    assert_eq!(b, [1]);
    false.to_bytes(&mut b);
    assert_eq!(b, [0]);
    assert!(!bool::from_bytes(&[0]));
    assert!(bool::from_bytes(&[1]));
    assert!(bool::from_bytes(&[2]));
    assert!(bool::from_bytes(&[255]));
}

#[test]
fn array_round_trips_at_extreme_widths() {
    let one: [u8; 1] = [9];
    let mut b = [0u8; 1];
    one.to_bytes(&mut b);
    assert_eq!(<[u8; 1]>::from_bytes(&b), one);

    let mut wide = [0u8; 32];
    for (i, x) in wide.iter_mut().enumerate() {
        *x = (i as u8) * 3;
    }
    let mut b = [0u8; 32];
    wide.to_bytes(&mut b);
    assert_eq!(<[u8; 32]>::from_bytes(&b), wide);
}

#[test]
fn header_layout() {
    let h = Header {
        items: 3,
        key_len: 4,
        value_len: 8,
        root_offset: 0x10,
    };
    let mut b = [0u8; 12];
    assert_eq!(Header::packed_len(), 12);
    h.to_bytes(&mut b);
    assert_eq!(b, [0, 0, 0, 3, 0, 4, 0, 8, 0, 0, 0, 0x10]);
    assert_eq!(Header::from_bytes(&b), h);
}
