use kvstore::protocol::{hash_bytes, parse_request, ErrorCode, ResponseBuilder};
use std::hash::{Hash, Hasher};

/// A request frame holding `args`.
fn frame(args: &[&[u8]]) -> Vec<u8> {
    let mut body = Vec::new();
    body.extend_from_slice(&(args.len() as u32).to_le_bytes());
    for a in args {
        body.extend_from_slice(&(a.len() as u32).to_le_bytes());
        body.extend_from_slice(a);
    }
    let mut out = (body.len() as u32).to_le_bytes().to_vec();
    out.extend_from_slice(&body);
    out
}

#[test]
fn parse_complete_request() {
    let buf = frame(&[b"SET", b"k", b"value"]);
    let (cmd, used) = parse_request(&buf).unwrap().unwrap();
    assert_eq!(used, buf.len());
    assert_eq!(cmd.args, vec![&b"SET"[..], &b"k"[..], &b"value"[..]]);
}

#[test]
fn parse_leaves_following_bytes() {
    let mut buf = frame(&[b"GET", b"k"]);
    let first = buf.len();
    buf.extend_from_slice(&frame(&[b"DEL"]));
    let (cmd, used) = parse_request(&buf).unwrap().unwrap();
    assert_eq!(used, first);
    assert_eq!(cmd.args.len(), 2);
}

#[test]
fn parse_incomplete_request() {
    let buf = frame(&[b"GET", b"key"]);
    assert!(parse_request(&buf[..3]).unwrap().is_none());
    assert!(parse_request(&buf[..buf.len() - 1]).unwrap().is_none());
    assert!(parse_request(&[]).unwrap().is_none());
}

#[test]
fn parse_rejects_short_total_length() {
    let buf = [2u8, 0, 0, 0, 9, 9];
    assert_eq!(parse_request(&buf).err(), Some("Invalid total packet length"));
}

#[test]
fn parse_rejects_argument_length_past_frame() {
    // Total length 6: the argument count (one) and two bytes, too few for a length.
    let buf = [6u8, 0, 0, 0, 1, 0, 0, 0, 0, 0];
    assert_eq!(parse_request(&buf).err(), Some("Buffer overflow parsing argument length"));
}

#[test]
fn parse_rejects_argument_data_past_frame() {
    // One argument announced as 9 bytes long, with only 2 in the frame.
    let buf = [10u8, 0, 0, 0, 1, 0, 0, 0, 9, 0, 0, 0, 1, 2];
    assert_eq!(parse_request(&buf).err(), Some("Buffer overflow parsing argument data"));
}

#[test]
fn parse_request_with_no_arguments() {
    let buf = [4u8, 0, 0, 0, 0, 0, 0, 0];
    let (cmd, used) = parse_request(&buf).unwrap().unwrap();
    assert_eq!(used, 8);
    assert!(cmd.args.is_empty());
}

#[test]
fn response_nil_and_length_prefix() {
    let mut r = ResponseBuilder::new();
    r.nil();
    assert_eq!(r.finish(), vec![1, 0, 0, 0, 0]);
    assert_eq!(ResponseBuilder::default().finish(), vec![0, 0, 0, 0]);
}

#[test]
fn response_error_encoding() {
    let mut r = ResponseBuilder::new();
    r.error(ErrorCode::TypeError, "bad");
    assert_eq!(r.finish(), vec![12, 0, 0, 0, 1, 3, 0, 0, 0, 3, 0, 0, 0, b'b', b'a', b'd']);
    assert_eq!(ErrorCode::Unknown.value(), 1);
    assert_eq!(ErrorCode::ArgError.value(), 2);
}

#[test]
fn response_str_and_integer_encoding() {
    let mut r = ResponseBuilder::new();
    r.str(b"hi");
    r.integer(-2);
    assert_eq!(
        r.finish(),
        vec![16, 0, 0, 0, 2, 2, 0, 0, 0, b'h', b'i', 3, 0xfe, 0xff, 0xff, 0xff, 0xff, 0xff, 0xff, 0xff]
    );
}

#[test]
fn response_double_encoding() {
    let mut r = ResponseBuilder::new();
    r.double_bits(1.5f64.to_bits());
    let mut expected = vec![9u8, 0, 0, 0, 4];
    expected.extend_from_slice(&1.5f64.to_le_bytes());
    assert_eq!(r.finish(), expected);
}

#[test]
fn response_array_encoding() {
    let mut r = ResponseBuilder::new();
    let mut a = r.array_start();
    a.item_str(b"x");
    a.item_double_bits(2.0f64.to_bits());
    a.finish();
    let mut expected = vec![0u8, 0, 0, 0, 5, 2, 0, 0, 0, 2, 1, 0, 0, 0, b'x', 4];
    expected.extend_from_slice(&2.0f64.to_le_bytes());
    let total = (expected.len() - 4) as u32;
    expected[..4].copy_from_slice(&total.to_le_bytes());
    assert_eq!(r.finish(), expected);
}

#[test]
fn empty_array_encoding() {
    let mut r = ResponseBuilder::new();
    r.array_start().finish();
    assert_eq!(r.finish(), vec![5, 0, 0, 0, 5, 0, 0, 0, 0]);
}

#[test]
fn hash_bytes_is_the_default_hasher() {
    let data = b"some key";
    let mut hasher = std::collections::hash_map::DefaultHasher::new();
    data[..].hash(&mut hasher);
    assert_eq!(hash_bytes(data), hasher.finish());
    assert_eq!(hash_bytes(data), hash_bytes(&data.to_vec()));
    assert_ne!(hash_bytes(b"a"), hash_bytes(b"b"));
}

#[test]
fn parse_request_reads_back_an_encoded_request() {
    let args: [&[u8]; 3] = [b"SET", b"", b"value"];
    let mut body = (args.len() as u32).to_le_bytes().to_vec();
    for a in args {
        body.extend_from_slice(&(a.len() as u32).to_le_bytes());
        body.extend_from_slice(a);
    }
    let mut enc = (body.len() as u32).to_le_bytes().to_vec();
    enc.extend_from_slice(&body);
    for p in 0..enc.len() {
        assert!(matches!(parse_request(&enc[..p]), Ok(None)));
    }
    let mut with_more = enc.clone();
    with_more.extend_from_slice(&[7, 7, 7]);
    let (cmd, n) = parse_request(&with_more).unwrap().unwrap();
    assert_eq!(n, enc.len());
    assert_eq!(cmd.args, args.to_vec());
}
