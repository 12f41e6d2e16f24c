use anvil::codec::{frame_len, CodecError, JsonRpcCodec};
use bytes::BytesMut;

fn buf(s: &[u8]) -> BytesMut {
    BytesMut::from(s)
}

#[test]
fn decodes_one_object() {
    let mut codec = JsonRpcCodec;
    let mut b = buf(br#"{"jsonrpc":"2.0","id":1}"#);
    let frame = codec.decode(&mut b).unwrap().unwrap();
    assert_eq!(frame, r#"{"jsonrpc":"2.0","id":1}"#);
    assert!(b.is_empty());
}

#[test]
fn brace_inside_string_is_one_frame() {
    let mut codec = JsonRpcCodec;
    let mut b = buf(br#"{"s":"}"}"#);
    assert_eq!(frame_len(br#"{"s":"}"}"#), Some(9));
    assert_eq!(codec.decode(&mut b).unwrap().unwrap(), r#"{"s":"}"}"#);
    assert!(b.is_empty());
}

#[test]
fn escaped_quote_keeps_string_open() {
    let text = br#"{"s":"\"}"}"#;
    assert_eq!(frame_len(text), Some(text.len()));
}

#[test]
fn partial_input_needs_more_bytes() {
    let mut codec = JsonRpcCodec;
    let mut b = buf(br#"{"a":[1,2"#);
    assert_eq!(codec.decode(&mut b), Ok(None));
    assert_eq!(&b[..], br#"{"a":[1,2"#);
}

#[test]
fn empty_and_whitespace_hold_no_frame() {
    assert_eq!(frame_len(b""), None);
    assert_eq!(frame_len(b"  \n\t "), None);
}

#[test]
fn concatenated_values_come_out_in_order() {
    let mut codec = JsonRpcCodec;
    let mut b = buf(b"{\"a\":1}\n  [1,{\"b\":[]}]{}");
    assert_eq!(codec.decode(&mut b).unwrap().unwrap(), "{\"a\":1}");
    assert_eq!(codec.decode(&mut b).unwrap().unwrap(), "\n  [1,{\"b\":[]}]");
    assert_eq!(codec.decode(&mut b).unwrap().unwrap(), "{}");
    assert_eq!(codec.decode(&mut b), Ok(None));
}

#[test]
fn every_prefix_yields_only_closed_values() {
    let stream = br#"{"x":"{["}[3,4]{"y":{}}"#;
    let ends = [10usize, 15, 23];
    for k in 0..=stream.len() {
        let mut codec = JsonRpcCodec;
        let mut b = buf(&stream[..k]);
        let mut got = 0;
        while let Ok(Some(_)) = codec.decode(&mut b) {
            got += 1;
        }
        let expected = ends.iter().filter(|e| **e <= k).count();
        assert_eq!(got, expected, "prefix of {} bytes", k);
    }
}

#[test]
fn invalid_utf8_is_an_error() {
    let mut codec = JsonRpcCodec;
    let mut b = buf(&[b'{', b'"', 0xff, b'"', b'}']);
    assert_eq!(codec.decode(&mut b), Err(CodecError::InvalidUtf8));
}

#[test]
fn encode_appends_verbatim() {
    let mut codec = JsonRpcCodec;
    let mut b = buf(b"ab");
    codec.encode("{\"r\":1}".to_string(), &mut b);
    assert_eq!(&b[..], b"ab{\"r\":1}");
}
