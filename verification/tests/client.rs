use my_own_redis::client::{decode_response, encode_request, QueryError};
use my_own_redis::command::parse;
use my_own_redis::protocol::{
    buffer_size_needed, parse_message, Error, TypedValue, BUF_LEN, MAX_MSG_LEN,
};

#[test]
fn encode_request_of_set_foo_bar() {
    let command: Vec<&[u8]> = vec![b"set", b"foo", b"bar"];
    let message = encode_request(&[command]).unwrap();
    let mut want = vec![0x00, 0x00, 0x00, 0x21];
    want.extend_from_slice(&[0x03, 0x00, 0x00, 0x00, 0x00, 0x00, 0x00, 0x00, 0x03]);
    want.extend_from_slice(&[0x02, 0x00, 0x00, 0x00, 0x03, b's', b'e', b't']);
    want.extend_from_slice(&[0x02, 0x00, 0x00, 0x00, 0x03, b'f', b'o', b'o']);
    want.extend_from_slice(&[0x02, 0x00, 0x00, 0x00, 0x03, b'b', b'a', b'r']);
    assert_eq!(want, message);
}

#[test]
fn encode_request_puts_all_commands_in_one_request() {
    let set: Vec<&[u8]> = vec![b"set", b"k"];
    let rest: Vec<&[u8]> = vec![b"v"];
    let message = encode_request(&[set, vec![], rest]).unwrap();
    assert_eq!(vec![&b"set"[..], &b"k"[..], &b"v"[..]], parse(&message[4..]).unwrap());
    assert_eq!(4 + 9 + 8 + 6 + 6, message.len());
}

#[test]
fn encode_request_is_as_long_as_buffer_size_needed_says() {
    let command: Vec<&[u8]> = vec![b"del", b"some-key", b""];
    assert_eq!(buffer_size_needed(&[command.clone()]), encode_request(&[command]).unwrap().len());
}

#[test]
fn encode_request_takes_what_fits_in_a_message_and_refuses_the_rest() {
    // a count of 9 bytes and a string of 5 + 4082 make a body of 4096 bytes
    let fits = vec![b'x'; MAX_MSG_LEN - 14];
    let message = encode_request(&[vec![&fits[..]]]).unwrap();
    assert_eq!(BUF_LEN, message.len());
    assert_eq!(&[0x00, 0x00, 0x10, 0x00], &message[..4]);
    let (read, body) = parse_message(&message).unwrap();
    assert_eq!(BUF_LEN, read);
    assert_eq!(vec![&fits[..]], parse(body).unwrap());
    let long = vec![b'x'; MAX_MSG_LEN - 13];
    assert_eq!(
        Err(QueryError::MessageTooLong(BUF_LEN + 1)),
        encode_request(&[vec![&long[..]]])
    );
}

#[test]
fn encode_request_takes_frames_between_the_longest_body_and_the_buffer() {
    for len in [MAX_MSG_LEN - 19, MAX_MSG_LEN - 18, MAX_MSG_LEN - 16] {
        let value = vec![b'x'; len];
        let message = encode_request(&[vec![&value[..]]]).unwrap();
        assert_eq!(4 + 9 + 5 + len, message.len());
    }
}

#[test]
fn decode_response_reads_the_first_value_of_the_first_message() {
    assert!(matches!(decode_response(b"\x00\x00\x00\x01\x00"), Ok(TypedValue::Nil)));
    assert!(matches!(
        decode_response(b"\x00\x00\x00\x08\x02\x00\x00\x00\x03bar\x00\x00"),
        Ok(TypedValue::Str(b"bar"))
    ));
    assert!(matches!(
        decode_response(b"\x00\x00\x00\x09\x03\x00\x00\x00\x00\x00\x00\x00\x01"),
        Ok(TypedValue::Int(1))
    ));
    assert!(matches!(
        decode_response(b"\x00\x00\x00\x0c\x01\x00\x00\x00\x02\x00\x00\x00\x03nay"),
        Ok(TypedValue::Error(2, b"nay"))
    ));
}

#[test]
fn decode_response_reports_what_is_wrong() {
    assert!(matches!(
        decode_response(b"\x00\x00"),
        Err(QueryError::Protocol(Error::InputTooShort(2)))
    ));
    assert!(matches!(
        decode_response(b"\x00\x00\x00\x00"),
        Err(QueryError::Protocol(Error::InputTooShort(0)))
    ));
    assert!(matches!(
        decode_response(b"\x00\x00\x00\x01\x07"),
        Err(QueryError::Protocol(Error::InvalidDataType(7)))
    ));
    assert!(matches!(
        decode_response(b"\x00\x00\x20\x00"),
        Err(QueryError::Protocol(Error::MessageTooLong(8192)))
    ));
}
