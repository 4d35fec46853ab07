use dagr_core::payload::error::CodecError;
use dagr_core::payload::ordered::OrderedMap;
use dagr_core::payload::{round_trip, Codec, Cursor, Payload, FORMAT_VERSION, MAGIC};

/// An envelope written out by hand.
fn envelope(version: u16, name: &str, body: &[u8]) -> Vec<u8> {
    let mut out = b"dgrP".to_vec();
    out.extend_from_slice(&version.to_le_bytes());
    out.extend_from_slice(&(name.len() as u64).to_le_bytes());
    out.extend_from_slice(name.as_bytes());
    out.extend_from_slice(body);
    out
}

fn body<T: Codec>(v: &T) -> Vec<u8> {
    let mut out = Vec::new();
    v.encode_body(&mut out);
    out
}

fn read<T: Codec>(bytes: &[u8]) -> Result<T, CodecError> {
    T::decode_body(&mut Cursor::new(bytes))
}

fn again<T: Codec>(v: &T) -> T {
    read(&body(v)).unwrap()
}

#[test]
fn an_envelope_names_its_type() {
    assert_eq!(().encode_to_vec(), envelope(1, "()", &[]));
    assert_eq!(MAGIC, *b"dgrP");
    assert_eq!(FORMAT_VERSION, 1);
    let mut out = vec![9];
    ().encode(&mut out);
    assert_eq!(out[0], 9);
    assert_eq!(out[1..], envelope(1, "()", &[])[..]);
}

#[test]
fn a_value_comes_back() {
    assert_eq!(round_trip(&()).unwrap(), ());
    assert_eq!(<() as Payload>::decode(&().encode_to_vec()).unwrap(), ());
}

#[test]
fn another_type_is_refused() {
    let e = <() as Payload>::decode(&envelope(1, "acme.Rows", &[1])).unwrap_err();
    assert!(matches!(&e, CodecError::TypeMismatch { expected, found } if *expected == "()" && found == "acme.Rows"));
    assert_eq!(
        e.render(),
        "payload type mismatch: these bytes were encoded from `acme.Rows`, but a `()` was expected — the encoded \
         envelope carries the author-declared stable name, so a value encoded from another type is refused rather \
         than misread"
    );
}

#[test]
fn another_version_is_refused() {
    let e = <() as Payload>::decode(&envelope(2, "()", &[])).unwrap_err();
    assert!(matches!(e, CodecError::UnsupportedVersion { expected: 1, found: 2 }));
    assert_eq!(
        e.render(),
        "unsupported payload format version: found 2, expected 1 (this build encodes and decodes version 1)"
    );
}

#[test]
fn other_magic_is_refused() {
    let mut bytes = ().encode_to_vec();
    bytes[0] = 0;
    assert!(matches!(<() as Payload>::decode(&bytes), Err(CodecError::Malformed { .. })));
}

#[test]
fn bytes_left_over_are_refused() {
    let e = <() as Payload>::decode(&envelope(1, "()", &[0, 0])).unwrap_err();
    assert!(matches!(e, CodecError::TrailingGarbage { consumed: 16, total: 18 }));
    assert_eq!(e.render(), "trailing bytes after a complete payload: 16 of 18 byte(s) consumed, 2 left over");
}

#[test]
fn every_cut_is_refused() {
    let bytes = ().encode_to_vec();
    for n in 0..bytes.len() {
        assert!(<() as Payload>::decode(&bytes[..n]).is_err());
    }
    let value = (7u32, "batch".to_string(), vec![Some(1u8), None]);
    let bytes = body(&value);
    for n in 0..bytes.len() {
        assert!(read::<(u32, String, Vec<Option<u8>>)>(&bytes[..n]).is_err());
    }
    let e = read::<u32>(&[1, 2, 3]).unwrap_err();
    assert!(matches!(e, CodecError::Truncated { context: "u32", needed: 4, available: 3 }));
    assert_eq!(e.render(), "truncated payload while decoding `u32`: 4 more byte(s) needed, 3 available");
}

#[test]
fn a_field_says_where_it_stands() {
    let inner = read::<u32>(&[1, 2, 3]).unwrap_err();
    let e = CodecError::in_field("acme.Outer", "count", CodecError::in_field("acme.Inner", "rows", inner));
    assert_eq!(
        e.render(),
        "while decoding field `count` of `acme.Outer`: while decoding field `rows` of `acme.Inner`: truncated \
         payload while decoding `u32`: 4 more byte(s) needed, 3 available"
    );
    assert!(matches!(e.root(), CodecError::Truncated { context: "u32", needed: 4, available: 3 }));
    assert_eq!(
        e.source(),
        Some(
            "while decoding field `rows` of `acme.Inner`: truncated payload while decoding `u32`: 4 more byte(s) \
             needed, 3 available"
                .to_string()
        )
    );
}

#[test]
fn numbers_are_little_endian() {
    assert_eq!(body(&0x0102_0304u32), vec![4, 3, 2, 1]);
    assert_eq!(body(&-2i16), vec![0xfe, 0xff]);
    assert_eq!(body(&1usize), 1u64.to_le_bytes().to_vec());
    assert_eq!(body(&-1isize), (-1i64).to_le_bytes().to_vec());
    assert_eq!(body(&u128::MAX), vec![255; 16]);
    assert_eq!(body(&true), vec![1]);
    assert_eq!(body(&()), Vec::<u8>::new());
    assert_eq!(body(&"é".to_string()), vec![2, 0, 0, 0, 0, 0, 0, 0, 0xc3, 0xa9]);
}

#[test]
fn extreme_numbers_come_back() {
    assert_eq!(again(&u8::MAX), u8::MAX);
    assert_eq!(again(&u16::MAX), u16::MAX);
    assert_eq!(again(&u64::MAX), u64::MAX);
    assert_eq!(again(&u128::MAX), u128::MAX);
    assert_eq!(again(&usize::MAX), usize::MAX);
    assert_eq!(again(&i8::MIN), i8::MIN);
    assert_eq!(again(&i16::MIN), i16::MIN);
    assert_eq!(again(&i32::MIN), i32::MIN);
    assert_eq!(again(&i64::MIN), i64::MIN);
    assert_eq!(again(&i128::MIN), i128::MIN);
    assert_eq!(again(&isize::MIN), isize::MIN);
    assert_eq!(again(&i128::MAX), i128::MAX);
}

#[test]
fn containers_come_back() {
    assert_eq!(again(&Some(5u8)), Some(5));
    assert_eq!(again(&None::<u8>), None);
    assert_eq!(again(&vec![1u16, 2, 3]), vec![1, 2, 3]);
    assert_eq!(again(&Vec::<String>::new()), Vec::<String>::new());
    assert_eq!(again(&vec![(), (), ()]), vec![(), (), ()]);
    assert_eq!(again(&(1u8,)), (1,));
    assert_eq!(again(&(1u8, true, "x".to_string())), (1, true, "x".to_string()));
    assert_eq!(again(&(1u8, 2u8, 3u8, 4u8, 5u8, 6u8, 7u8, 8u8)), (1, 2, 3, 4, 5, 6, 7, 8));
    assert_eq!(body(&Some(5u8)), vec![1, 5]);
    assert_eq!(body(&None::<u8>), vec![0]);
    assert_eq!(body(&vec![7u8]), vec![1, 0, 0, 0, 0, 0, 0, 0, 7]);
    assert_eq!(body(&(1u8, 2u16)), vec![1, 2, 0]);
}

#[test]
fn what_is_no_value_is_refused() {
    let e = read::<bool>(&[2]).unwrap_err();
    assert!(matches!(&e, CodecError::Malformed { context: "bool", .. }));
    let e = read::<Option<u8>>(&[7]).unwrap_err();
    assert_eq!(e.render(), "malformed payload while decoding `Option`: expected the tag 0 or 1, found 7");
    assert!(matches!(read::<Option<u8>>(&[]), Err(CodecError::Truncated { context: "Option", needed: 1, available: 0 })));
}

#[test]
fn bytes_that_are_no_text_are_refused() {
    let e = read::<String>(&[1, 0, 0, 0, 0, 0, 0, 0, 0xff]).unwrap_err();
    match &e {
        CodecError::Malformed { context, source, .. } => {
            assert_eq!(*context, "String");
            assert_eq!(source.as_deref(), Some("invalid utf-8 sequence of 1 bytes from index 0"));
        }
        _ => panic!("not malformed"),
    }
    assert_eq!(e.source(), Some("invalid utf-8 sequence of 1 bytes from index 0".to_string()));
}

#[test]
fn a_count_is_not_believed_beyond_the_bytes() {
    let mut bytes = u64::MAX.to_le_bytes().to_vec();
    bytes.push(1);
    assert!(matches!(read::<Vec<u8>>(&bytes), Err(CodecError::Truncated { context: "Vec", available: 1, .. })));
    let two = [2, 0, 0, 0, 0, 0, 0, 0];
    assert_eq!(read::<Vec<()>>(&two).unwrap().len(), 2);
}

#[test]
fn insertion_order_leaves_no_trace() {
    let mut a: OrderedMap<u32, bool> = OrderedMap::new();
    let mut b: OrderedMap<u32, bool> = OrderedMap::new();
    a.insert(256, true);
    a.insert(1, false);
    b.insert(1, true);
    b.insert(256, true);
    assert_eq!(b.insert(1, false), Some(true));
    assert_eq!(body(&a), body(&b));
    assert_eq!(body(&a), vec![2, 0, 0, 0, 0, 0, 0, 0, 1, 0, 0, 0, 0, 0, 1, 0, 0, 1]);
    let back = again(&a);
    assert_eq!(back.len(), 2);
    assert_eq!(*back.key_at(0), 1);
    assert_eq!(*back.value_at(1), true);
    assert_eq!(back.get(&256), Some(&true));
    assert_eq!(back.get(&2), None);
}

#[test]
fn entries_out_of_order_are_refused() {
    let bytes = [2, 0, 0, 0, 0, 0, 0, 0, 5, 1, 5, 1];
    let e = read::<OrderedMap<u8, bool>>(&bytes).err().unwrap();
    assert_eq!(
        e.render(),
        "malformed payload while decoding `BTreeMap`: the entries are not in strictly ascending key order (a \
         canonical encoding has exactly one byte string per value)"
    );
    let bytes = [2, 0, 0, 0, 0, 0, 0, 0, 6, 1, 5, 1];
    assert!(read::<OrderedMap<u8, bool>>(&bytes).is_err());
    let bytes = [2, 0, 0, 0, 0, 0, 0, 0, 4, 1, 5, 1];
    assert_eq!(read::<OrderedMap<u8, bool>>(&bytes).ok().unwrap().len(), 2);
}

#[test]
fn texts_are_ordered_by_their_bytes() {
    let mut m: OrderedMap<String, u8> = OrderedMap::new();
    m.insert("z".to_string(), 1);
    m.insert("é".to_string(), 2);
    m.insert("Z".to_string(), 3);
    let keys: Vec<&str> = (0..m.len()).map(|i| m.key_at(i).as_str()).collect();
    assert_eq!(keys, vec!["Z", "z", "é"]);
}

#[test]
fn two_values_do_not_share_an_encoding() {
    assert_ne!(body(&("ab".to_string(), "c".to_string())), body(&("a".to_string(), "bc".to_string())));
    assert_ne!(body(&vec![vec![1u8], vec![]]), body(&vec![vec![], vec![1u8]]));
}

#[test]
fn a_cursor_counts_what_it_has_read() {
    let mut c = Cursor::new(&[1, 2, 3]);
    assert_eq!(c.take_byte("x").unwrap(), 1);
    assert_eq!(c.position(), 1);
    assert_eq!(c.take(2, "x").unwrap(), &[2, 3]);
    assert!(c.is_empty());
    assert_eq!(c.remaining(), 0);
    assert!(matches!(c.take(1, "x"), Err(CodecError::Truncated { context: "x", needed: 1, available: 0 })));
    let mut c = Cursor::new(&[9, 1, 0, 0]);
    c.take_byte("x").unwrap();
    assert!(matches!(c.take_len("n"), Err(CodecError::Truncated { context: "n", needed: 8, available: 3 })));
    assert_eq!(c.position(), 1);
    let e = CodecError::malformed("thing", "odd");
    assert_eq!(e.render(), "malformed payload while decoding `thing`: odd");
    assert_eq!(e.source(), None);
    let e = CodecError::malformed_from("thing", "odd", "because");
    assert_eq!(e.source(), Some("because".to_string()));
}
