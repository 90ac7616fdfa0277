use bcs::io::{Cursor, Read};
use bcs::stream::StreamDeserializer;
use bcs::Error;

#[test]
fn stream_reads_only_what_each_value_needs() {
    let source = Cursor::new(vec![0x01, 0x34, 0x12, 0x02, b'h', b'i', 0xFE, 0x99]);
    let mut d = StreamDeserializer::with_default_limits(source);
    assert_eq!(d.deserialize_bool(), Ok(true));
    assert_eq!(d.deserialize_u16(), Ok(0x1234));
    assert_eq!(d.deserialize_str(), Ok("hi".to_string()));
    assert_eq!(d.deserialize_i8(), Ok(-2));
    let mut rest = d.into_inner();
    let mut buf = [0u8; 1];
    assert_eq!(rest.read_exact(&mut buf), Ok(()));
    assert_eq!(buf, [0x99]);
}

#[test]
fn stream_errors_match_in_memory_decoder() {
    let mut d = StreamDeserializer::with_default_limits(Cursor::new(vec![0x02]));
    assert_eq!(d.deserialize_bool(), Err(Error::ExpectedBoolean));
    let mut d = StreamDeserializer::with_default_limits(Cursor::new(vec![0x02]));
    assert_eq!(d.deserialize_option_tag(), Err(Error::ExpectedOption));
    let mut d = StreamDeserializer::with_default_limits(Cursor::new(vec![0x01, 0x02]));
    assert_eq!(d.deserialize_u32(), Err(Error::Eof));
    let mut d = StreamDeserializer::with_default_limits(Cursor::new(vec![0x83, 0x00]));
    assert_eq!(d.deserialize_len(), Err(Error::NonCanonicalUleb128Encoding));
    let mut d = StreamDeserializer::new(Cursor::new(vec![0x03, 1, 2, 3]), 10, 2);
    assert_eq!(d.deserialize_bytes(), Err(Error::ExceededMaxLen(2)));
    let mut d = StreamDeserializer::with_default_limits(Cursor::new(vec![0x01, 0xFF]));
    assert_eq!(d.deserialize_str(), Err(Error::Utf8));
}

#[test]
fn stream_integers_and_nesting() {
    let mut bytes = vec![0xAC, 0x02, 0x82, 0x01];
    bytes.extend_from_slice(&u64::MAX.to_le_bytes());
    bytes.extend_from_slice(&i128::MIN.to_le_bytes());
    bytes.extend_from_slice(&(-5i32).to_le_bytes());
    bytes.extend_from_slice(&[0x02, 0xDE, 0xAD]);
    let mut d = StreamDeserializer::new(Cursor::new(bytes), 1, 1000);
    assert_eq!(d.enter_container("seq"), Ok(()));
    assert_eq!(d.enter_container("seq"), Err(Error::ExceededContainerDepthLimit("seq")));
    assert_eq!(d.deserialize_len(), Ok(300));
    assert_eq!(d.deserialize_variant_index(), Ok(130));
    assert_eq!(d.deserialize_u64(), Ok(u64::MAX));
    assert_eq!(d.deserialize_i128(), Ok(i128::MIN));
    assert_eq!(d.deserialize_i32(), Ok(-5));
    assert_eq!(d.deserialize_bytes(), Ok(vec![0xDE, 0xAD]));
    d.leave_container();
    assert_eq!(d.deserialize_u8(), Err(Error::Eof));
}
