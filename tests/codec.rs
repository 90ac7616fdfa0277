use bcs::de::{check_map_key, Deserializer};
use bcs::ser::{lex_less, Serializer};
use bcs::uleb128::{decode_uleb128, encode_uleb128};
use bcs::io::Read;
use bcs::Error;

fn encoder() -> Serializer {
    Serializer::with_default_limits()
}

fn decoder(bytes: Vec<u8>) -> Deserializer {
    Deserializer::with_default_limits(bytes)
}

#[test]
fn bool_encodings_and_rejection() {
    let mut s = encoder();
    s.serialize_bool(true);
    assert_eq!(s.into_bytes(), vec![0x01]);
    let mut s = encoder();
    s.serialize_bool(false);
    assert_eq!(s.into_bytes(), vec![0x00]);
    let mut d = decoder(vec![0x02]);
    assert_eq!(d.deserialize_bool(), Err(Error::ExpectedBoolean));
    let mut d = decoder(vec![0x01, 0x00]);
    assert_eq!(d.deserialize_bool(), Ok(true));
    assert_eq!(d.deserialize_bool(), Ok(false));
    assert_eq!(d.end(), Ok(()));
}

#[test]
fn uleb_of_300() {
    let mut out = Vec::new();
    encode_uleb128(300, &mut out);
    assert_eq!(out, vec![0xAC, 0x02]);
    assert_eq!(decode_uleb128(&[0xAC, 0x02]), Ok((300, 2)));
    let mut d = decoder(vec![0xAC, 0x02]);
    assert_eq!(d.deserialize_len(), Ok(300));
    assert_eq!(d.end(), Ok(()));
}

#[test]
fn uleb_boundaries() {
    for (v, expected) in [
        (0u32, vec![0x00]),
        (127, vec![0x7F]),
        (128, vec![0x80, 0x01]),
        (16384, vec![0x80, 0x80, 0x01]),
        (u32::MAX, vec![0xFF, 0xFF, 0xFF, 0xFF, 0x0F]),
    ] {
        let mut out = Vec::new();
        encode_uleb128(v, &mut out);
        assert_eq!(out, expected);
        assert_eq!(decode_uleb128(&out), Ok((v, out.len())));
    }
}

#[test]
fn uleb_extra_zero_group_is_rejected() {
    let mut d = decoder(vec![0x83, 0x00]);
    assert_eq!(d.deserialize_len(), Err(Error::NonCanonicalUleb128Encoding));
    assert_eq!(decode_uleb128(&[0x80, 0x00]), Err(Error::NonCanonicalUleb128Encoding));
}

#[test]
fn uleb_overflow_and_eof() {
    assert_eq!(
        decode_uleb128(&[0xFF, 0xFF, 0xFF, 0xFF, 0x10]),
        Err(Error::IntegerOverflowDuringUleb128Decoding)
    );
    assert_eq!(
        decode_uleb128(&[0x80, 0x80, 0x80, 0x80, 0x80, 0x01]),
        Err(Error::IntegerOverflowDuringUleb128Decoding)
    );
    assert_eq!(decode_uleb128(&[0x80]), Err(Error::Eof));
    assert_eq!(decode_uleb128(&[]), Err(Error::Eof));
}

#[test]
fn sequence_of_three_bytes() {
    let mut s = encoder();
    assert_eq!(s.enter_container("seq"), Ok(()));
    assert_eq!(s.serialize_len(3), Ok(()));
    s.serialize_u8(1);
    s.serialize_u8(2);
    s.serialize_u8(3);
    s.leave_container();
    assert_eq!(s.into_bytes(), vec![0x03, 0x01, 0x02, 0x03]);

    let mut d = decoder(vec![0x03, 0x01, 0x02, 0x03]);
    assert_eq!(d.enter_container("seq"), Ok(()));
    let n = d.deserialize_len().unwrap();
    let mut items = Vec::new();
    for _ in 0..n {
        items.push(d.deserialize_u8().unwrap());
    }
    d.leave_container();
    assert_eq!(items, vec![1, 2, 3]);
    assert_eq!(d.end(), Ok(()));
}

fn map_bytes(entries: Vec<(Vec<u8>, Vec<u8>)>) -> Vec<u8> {
    let mut s = encoder();
    s.serialize_map(entries).unwrap();
    s.into_bytes()
}

#[test]
fn map_order_does_not_depend_on_insertion() {
    let a = map_bytes(vec![
        (vec![0x02], vec![0xBB]),
        (vec![0x01], vec![0xAA]),
        (vec![0x01, 0x00], vec![0xCC]),
    ]);
    let b = map_bytes(vec![
        (vec![0x01, 0x00], vec![0xCC]),
        (vec![0x01], vec![0xAA]),
        (vec![0x02], vec![0xBB]),
    ]);
    assert_eq!(a, b);
    assert_eq!(a, vec![0x03, 0x01, 0xAA, 0x01, 0x00, 0xCC, 0x02, 0xBB]);
}

fn decode_u8_map(bytes: Vec<u8>) -> Result<Vec<(u8, u8)>, Error> {
    let mut d = decoder(bytes);
    d.enter_container("map")?;
    let n = d.deserialize_len()?;
    let mut previous: Option<Vec<u8>> = None;
    let mut out = Vec::new();
    for _ in 0..n {
        let start = d.position();
        let k = d.deserialize_u8()?;
        let key = d.consumed_since(start);
        check_map_key(previous.as_deref(), &key)?;
        previous = Some(key);
        let v = d.deserialize_u8()?;
        out.push((k, v));
    }
    d.leave_container();
    d.end()?;
    Ok(out)
}

#[test]
fn map_keys_out_of_order_are_rejected() {
    assert_eq!(decode_u8_map(vec![0x02, 0x01, 0xAA, 0x02, 0xBB]), Ok(vec![(1, 0xAA), (2, 0xBB)]));
    assert_eq!(decode_u8_map(vec![0x02, 0x02, 0xBB, 0x01, 0xAA]), Err(Error::NonCanonicalMap));
    assert_eq!(decode_u8_map(vec![0x02, 0x01, 0xAA, 0x01, 0xBB]), Err(Error::NonCanonicalMap));
}

#[test]
fn byte_order_is_unsigned_lexicographic() {
    assert!(lex_less(&[0x01], &[0x02]));
    assert!(lex_less(&[0x01], &[0x01, 0x00]));
    assert!(lex_less(&[0x7F], &[0x80]));
    assert!(!lex_less(&[0x02], &[0x01, 0xFF]));
    assert!(!lex_less(&[0x05], &[0x05]));
    assert_eq!(check_map_key(None, &[0x00]), Ok(()));
}

fn nested_sequence(depth: usize) -> Vec<u8> {
    let mut bytes = vec![0x01; depth - 1];
    bytes.push(0x00);
    bytes
}

fn decode_nested(d: &mut Deserializer) -> Result<usize, Error> {
    d.enter_container("seq")?;
    let n = d.deserialize_len()?;
    let mut deepest = 0;
    for _ in 0..n {
        deepest = decode_nested(d)?;
    }
    d.leave_container();
    Ok(deepest + 1)
}

#[test]
fn nesting_bound() {
    let max_depth = 4;
    let mut d = Deserializer::new(nested_sequence(max_depth), max_depth, 1000);
    assert_eq!(decode_nested(&mut d), Ok(max_depth));
    let mut d = Deserializer::new(nested_sequence(max_depth + 1), max_depth, 1000);
    assert_eq!(decode_nested(&mut d), Err(Error::ExceededContainerDepthLimit("seq")));

    let mut s = Serializer::new(max_depth, 1000);
    for _ in 0..max_depth {
        assert_eq!(s.enter_container("seq"), Ok(()));
    }
    assert_eq!(s.enter_container("seq"), Err(Error::ExceededContainerDepthLimit("seq")));
}

#[test]
fn trailing_byte_strict_and_streaming() {
    let mut s = encoder();
    s.serialize_u32(0x0102_0304);
    let mut bytes = s.into_bytes();
    bytes.push(0xFF);

    let mut strict = decoder(bytes.clone());
    assert_eq!(strict.deserialize_u32(), Ok(0x0102_0304));
    assert_eq!(strict.end(), Err(Error::RemainingInput));

    let mut streaming = decoder(bytes.clone());
    assert_eq!(streaming.deserialize_u32(), Ok(0x0102_0304));
    assert_eq!(streaming.position(), 4);
    assert_eq!(bytes[streaming.position()], 0xFF);
}

#[test]
fn integers_round_trip() {
    let mut s = encoder();
    s.serialize_u8(0xFE);
    s.serialize_u16(0x1234);
    s.serialize_u32(0xDEAD_BEEF);
    s.serialize_u64(u64::MAX - 1);
    s.serialize_u128(u128::MAX);
    s.serialize_i8(-1);
    s.serialize_i16(i16::MIN);
    s.serialize_i32(-2);
    s.serialize_i64(i64::MAX);
    s.serialize_i128(i128::MIN);
    let bytes = s.into_bytes();
    assert_eq!(bytes.len(), 1 + 2 + 4 + 8 + 16 + 1 + 2 + 4 + 8 + 16);
    assert_eq!(&bytes[1..3], &[0x34, 0x12]);
    assert_eq!(&bytes[3..7], &[0xEF, 0xBE, 0xAD, 0xDE]);
    assert_eq!(bytes[31], 0xFF);
    assert_eq!(&bytes[32..34], &[0x00, 0x80]);
    assert_eq!(&bytes[34..38], &[0xFE, 0xFF, 0xFF, 0xFF]);

    let mut d = decoder(bytes);
    assert_eq!(d.deserialize_u8(), Ok(0xFE));
    assert_eq!(d.deserialize_u16(), Ok(0x1234));
    assert_eq!(d.deserialize_u32(), Ok(0xDEAD_BEEF));
    assert_eq!(d.deserialize_u64(), Ok(u64::MAX - 1));
    assert_eq!(d.deserialize_u128(), Ok(u128::MAX));
    assert_eq!(d.deserialize_i8(), Ok(-1));
    assert_eq!(d.deserialize_i16(), Ok(i16::MIN));
    assert_eq!(d.deserialize_i32(), Ok(-2));
    assert_eq!(d.deserialize_i64(), Ok(i64::MAX));
    assert_eq!(d.deserialize_i128(), Ok(i128::MIN));
    assert_eq!(d.end(), Ok(()));
}

#[test]
fn short_integer_is_eof() {
    let mut d = decoder(vec![0x01, 0x02, 0x03]);
    assert_eq!(d.deserialize_u32(), Err(Error::Eof));
    assert_eq!(d.position(), 0);
    let mut d = decoder(vec![]);
    assert_eq!(d.deserialize_bool(), Err(Error::Eof));
}

#[test]
fn strings_bytes_options_variants_round_trip() {
    let mut s = encoder();
    assert_eq!(s.serialize_str("héllo"), Ok(()));
    assert_eq!(s.serialize_bytes(&[0xDE, 0xAD]), Ok(()));
    s.serialize_option_tag(false);
    s.serialize_option_tag(true);
    s.serialize_u8(9);
    s.serialize_variant_index(130);
    let bytes = s.into_bytes();
    assert_eq!(&bytes[..7], &[0x06, b'h', 0xC3, 0xA9, b'l', b'l', b'o']);
    assert_eq!(&bytes[7..10], &[0x02, 0xDE, 0xAD]);
    assert_eq!(&bytes[10..], &[0x00, 0x01, 0x09, 0x82, 0x01]);

    let mut d = decoder(bytes);
    assert_eq!(d.deserialize_str(), Ok("héllo".to_string()));
    assert_eq!(d.deserialize_bytes(), Ok(vec![0xDE, 0xAD]));
    assert_eq!(d.deserialize_option_tag(), Ok(false));
    assert_eq!(d.deserialize_option_tag(), Ok(true));
    assert_eq!(d.deserialize_u8(), Ok(9));
    assert_eq!(d.deserialize_variant_index(), Ok(130));
    assert_eq!(d.end(), Ok(()));
}

#[test]
fn malformed_text_and_tags() {
    let mut d = decoder(vec![0x01, 0xFF]);
    assert_eq!(d.deserialize_str(), Err(Error::Utf8));
    let mut d = decoder(vec![0x02]);
    assert_eq!(d.deserialize_option_tag(), Err(Error::ExpectedOption));
    let mut d = decoder(vec![0x03, 0x01]);
    assert_eq!(d.deserialize_bytes(), Err(Error::Eof));
}

#[test]
fn length_bound() {
    let mut s = Serializer::new(10, 2);
    assert_eq!(s.serialize_bytes(&[1, 2, 3]), Err(Error::ExceededMaxLen(2)));
    assert_eq!(s.serialize_len(2), Ok(()));
    assert_eq!(s.serialize_map(vec![(vec![1], vec![]); 3]), Err(Error::ExceededMaxLen(2)));
    assert_eq!(s.into_bytes(), vec![0x02]);

    let mut d = Deserializer::new(vec![0x03, 1, 2, 3], 10, 2);
    assert_eq!(d.deserialize_bytes(), Err(Error::ExceededMaxLen(2)));
    let mut d = Deserializer::new(vec![0x02, b'o', b'k'], 10, 2);
    assert_eq!(d.deserialize_str(), Ok("ok".to_string()));
}

#[test]
fn streaming_leaves_trailing_bytes() {
    let source = bcs::io::Cursor::new(vec![0x01, 0x05, 0x00, 0xEE]);
    let mut d = Deserializer::from_cursor(source, 10, 100);
    assert_eq!(d.deserialize_bool(), Ok(true));
    assert_eq!(d.deserialize_u16(), Ok(5));
    let mut rest = d.into_cursor();
    let mut buf = [0u8; 1];
    assert_eq!(rest.read_exact(&mut buf), Ok(()));
    assert_eq!(buf, [0xEE]);
    assert_eq!(rest.read(&mut buf), Ok(0));
}
