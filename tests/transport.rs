use bcs::io::{Cursor, Error as IoError, ErrorKind, Read, Write};
use bcs::Error;

#[test]
fn vec_sink_takes_everything() {
    let mut sink: Vec<u8> = vec![9];
    assert_eq!(sink.write(&[1, 2]), Ok(2));
    assert_eq!(sink.write_all(&[3, 4, 5]), Ok(()));
    assert_eq!(sink.flush(), Ok(()));
    assert_eq!(sink, vec![9, 1, 2, 3, 4, 5]);
}

#[test]
fn cursor_reads_short_then_nothing() {
    let mut c = Cursor::new(vec![1, 2, 3]);
    let mut buf = [0u8; 2];
    assert_eq!(c.read(&mut buf), Ok(2));
    assert_eq!(buf, [1, 2]);
    assert_eq!(c.read(&mut buf), Ok(1));
    assert_eq!(buf, [3, 2]);
    assert_eq!(c.read(&mut buf), Ok(0));
    assert_eq!(c.position(), 3);
}

#[test]
fn cursor_read_exact() {
    let mut c = Cursor::new(vec![1, 2, 3, 4]);
    let mut buf = [0u8; 3];
    assert_eq!(c.read_exact(&mut buf), Ok(()));
    assert_eq!(buf, [1, 2, 3]);
    let err = c.read_exact(&mut buf).unwrap_err();
    assert_eq!(err.kind(), ErrorKind::UnexpectedEof);
    assert_eq!(err.message(), "failed to fill whole buffer");
}

#[test]
fn transport_errors_translate() {
    let eof = IoError::new(ErrorKind::UnexpectedEof, "done");
    assert_eq!(eof.kind(), ErrorKind::UnexpectedEof);
    assert_eq!(Error::from_io(&eof), Error::Eof);
    let other = IoError::new(ErrorKind::Other, "broken pipe");
    assert_eq!(other.to_string(), "IO Error Other: broken pipe");
    assert_eq!(Error::from_io(&other), Error::Io("IO Error Other: broken pipe".to_string()));
    assert_eq!(Error::custom("bad field"), Error::Custom("bad field".to_string()));
}

#[test]
fn encoder_output_into_sink() {
    let mut s = bcs::ser::Serializer::with_default_limits();
    s.serialize_u16(0x0102);
    let mut sink: Vec<u8> = vec![0xAA];
    assert_eq!(s.write_to(&mut sink), Ok(()));
    assert_eq!(sink, vec![0xAA, 0x02, 0x01]);
}

#[test]
fn cursor_read_exact_failure_drains_source() {
    let mut c = Cursor::new(vec![1, 2, 3]);
    let mut buf = [0u8; 2];
    assert_eq!(c.read_exact(&mut buf), Ok(()));
    let mut buf = [0u8; 2];
    let err = c.read_exact(&mut buf).unwrap_err();
    assert_eq!(err, IoError::new(ErrorKind::UnexpectedEof, "failed to fill whole buffer"));
    assert_eq!(buf, [3, 0]);
    assert_eq!(c.position(), 3);
    let mut empty: [u8; 0] = [];
    assert_eq!(c.read_exact(&mut empty), Ok(()));
}

#[test]
fn empty_write_all_succeeds() {
    let mut sink: Vec<u8> = vec![7];
    assert_eq!(sink.write_all(&[]), Ok(()));
    assert_eq!(sink, vec![7]);
}
