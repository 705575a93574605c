use my_own_redis::protocol::{
    buffer_size_needed, parse_message, DataType, Error, Reader, TypedValue, Writer, BUF_LEN,
    HEADER_LEN, MAX_MSG_LEN,
};
use my_own_redis::ResponseCode;

#[test]
fn reader() {
    let data = b"\x00\x00\x00\x06foobar";

    let (read, request) = parse_message(data).unwrap();
    assert_eq!(10, read);
    assert_eq!(b"foobar", request);
}

#[test]
fn writer_write_response() {
    let mut buf: [u8; BUF_LEN] = [0; BUF_LEN];

    let written = {
        let mut writer = Writer::new(&mut buf);
        writer.push_err(ResponseCode::TooBig.code(), b"foo");
        writer.push_string(b"bar");
        writer.finish();

        writer.written()
    };

    let written = &buf[0..written];
    assert_eq!(
        b"\x00\x00\x00\x14\x01\x00\x00\x00\x65\x00\x00\x00\x03foo\x02\x00\x00\x00\x03bar",
        written
    );
}

#[test]
fn writer_push_nil() {
    let mut buf: [u8; BUF_LEN] = [0; BUF_LEN];

    let written = {
        let mut writer = Writer::new(&mut buf);
        writer.push_nil();
        writer.finish();
        writer.written()
    };

    let written = &buf[0..written];
    assert_eq!(b"\x00\x00\x00\x01\x00", written);
}

#[test]
fn writer_push_string() {
    let mut buf: [u8; BUF_LEN] = [0; BUF_LEN];

    let written = {
        let mut writer = Writer::new(&mut buf);
        writer.push_string(b"foo");
        writer.finish();
        writer.written()
    };

    let written = &buf[0..written];
    assert_eq!(b"\x00\x00\x00\x08\x02\x00\x00\x00\x03foo", written);
}

#[test]
fn writer_push_int() {
    let mut buf: [u8; BUF_LEN] = [0; BUF_LEN];
    let written = {
        let mut writer = Writer::new(&mut buf);
        writer.push_int(20);
        writer.finish();
        writer.written()
    };
    assert_eq!(
        &[0x00, 0x00, 0x00, 0x09, 0x03, 0x00, 0x00, 0x00, 0x00, 0x00, 0x00, 0x00, 0x14],
        &buf[0..written],
    );
}

#[test]
fn writer_push_int_is_big_endian() {
    let mut buf: [u8; BUF_LEN] = [0; BUF_LEN];
    let written = {
        let mut writer = Writer::new(&mut buf);
        writer.push_int(0x0102_0304_0506_0708);
        writer.finish();
        writer.written()
    };
    assert_eq!(
        &[0x00, 0x00, 0x00, 0x09, 0x03, 0x01, 0x02, 0x03, 0x04, 0x05, 0x06, 0x07, 0x08],
        &buf[0..written],
    );
}

#[test]
fn writer_counts_the_header() {
    let mut buf: [u8; BUF_LEN] = [0xaa; BUF_LEN];
    let mut writer = Writer::new(&mut buf);
    assert_eq!(HEADER_LEN, writer.written());
    writer.push_string(b"foobar");
    writer.finish();
    assert_eq!(15, writer.written());
    let buf = writer.into_inner();
    // nothing is written behind the message
    assert_eq!(0xaa, buf[15]);
}

#[test]
fn writer_two_strings_behind_a_count() {
    let mut buf: [u8; BUF_LEN] = [0; BUF_LEN];
    let written = {
        let mut writer = Writer::new(&mut buf);
        writer.push_int(2);
        writer.push_string(b"hello");
        writer.push_string(b"hallo");
        writer.finish();
        writer.written()
    };
    assert_eq!(
        b"\x00\x00\x00\x1d\x03\x00\x00\x00\x00\x00\x00\x00\x02\x02\x00\x00\x00\x05hello\x02\x00\x00\x00\x05hallo",
        &buf[0..written],
    );
}

#[test]
fn writer_works_on_a_short_buffer_that_it_fills() {
    let mut buf = [0u8; 9];
    let mut writer = Writer::new(&mut buf);
    writer.push_nil();
    writer.push_nil();
    writer.push_nil();
    writer.push_nil();
    writer.push_nil();
    writer.finish();
    assert_eq!(9, writer.written());
    assert_eq!(b"\x00\x00\x00\x05\x00\x00\x00\x00\x00", &buf[..]);
}

#[test]
fn parse_message_of_an_empty_body() {
    let (read, body) = parse_message(b"\x00\x00\x00\x00").unwrap();
    assert_eq!(4, read);
    assert_eq!(0, body.len());
    let reader = Reader::new(body);
    assert!(!reader.has_more());
}

#[test]
fn parse_message_leaves_what_follows_the_message() {
    let (read, body) = parse_message(b"\x00\x00\x00\x02hi\x00\x00\x00\x05hel").unwrap();
    assert_eq!(6, read);
    assert_eq!(b"hi", body);
}

#[test]
fn parse_message_is_incomplete_without_a_whole_header() {
    assert_eq!(Err(Error::InputTooShort(0)), parse_message(b""));
    assert_eq!(Err(Error::InputTooShort(3)), parse_message(b"\x00\x00\x00"));
}

#[test]
fn parse_message_is_incomplete_without_a_whole_body() {
    assert_eq!(Err(Error::InputTooShort(9)), parse_message(b"\x00\x00\x00\x06fooba"));
}

#[test]
fn parse_message_takes_the_longest_body() {
    let mut data = vec![0x00, 0x00, 0x10, 0x00];
    data.resize(HEADER_LEN + MAX_MSG_LEN, 0x42);
    let (read, body) = parse_message(&data).unwrap();
    assert_eq!(BUF_LEN, read);
    assert_eq!(MAX_MSG_LEN, body.len());
    assert_eq!(0x42, body[MAX_MSG_LEN - 1]);
}

#[test]
fn parse_message_refuses_a_body_that_is_one_byte_too_long() {
    let mut data = vec![0x00, 0x00, 0x10, 0x01];
    data.resize(HEADER_LEN + MAX_MSG_LEN + 1, 0x42);
    assert_eq!(Err(Error::MessageTooLong(4097)), parse_message(&data));
    // the length alone decides, before the body is there
    assert_eq!(Err(Error::MessageTooLong(5000)), parse_message(b"\x00\x00\x13\x88"));
}

#[test]
fn parse_message_gives_back_what_a_writer_wrote() {
    let mut buf: [u8; BUF_LEN] = [0; BUF_LEN];
    let written = {
        let mut writer = Writer::new(&mut buf);
        writer.push_string(b"hello");
        writer.push_int(7);
        writer.finish();
        writer.written()
    };
    let (read, body) = parse_message(&buf[0..written]).unwrap();
    assert_eq!(written, read);
    assert_eq!(b"\x02\x00\x00\x00\x05hello\x03\x00\x00\x00\x00\x00\x00\x00\x07", body);
}

#[test]
fn reader_reads_back_what_a_writer_wrote() {
    let mut buf: [u8; BUF_LEN] = [0; BUF_LEN];
    let written = {
        let mut writer = Writer::new(&mut buf);
        writer.push_nil();
        writer.push_int(u64::MAX);
        writer.push_string(b"bar");
        writer.push_err(ResponseCode::Nx.code(), b"no such key");
        writer.push_string(b"");
        writer.push_int(0);
        writer.finish();
        writer.written()
    };
    let (_, body) = parse_message(&buf[0..written]).unwrap();
    let mut reader = Reader::new(body);
    assert_eq!(Ok(DataType::Nil), reader.read_data_type());
    assert_eq!(Ok(u64::MAX), reader.read_int());
    assert_eq!(Ok(&b"bar"[..]), reader.read_string());
    assert_eq!(Ok((2, &b"no such key"[..])), reader.read_data_type_err());
    assert_eq!(Ok(&b""[..]), reader.read_string());
    assert_eq!(Ok(0), reader.read_int());
    assert!(!reader.has_more());
}

#[test]
fn read_value_reads_back_what_a_writer_wrote() {
    let mut buf: [u8; BUF_LEN] = [0; BUF_LEN];
    let written = {
        let mut writer = Writer::new(&mut buf);
        writer.push_err(ResponseCode::Unknown.code(), b"oops");
        writer.push_string(b"bar");
        writer.push_nil();
        writer.push_int(258);
        writer.finish();
        writer.written()
    };
    let (_, body) = parse_message(&buf[0..written]).unwrap();
    let mut reader = Reader::new(body);
    assert!(matches!(reader.read_value(), Ok(TypedValue::Error(1, b"oops"))));
    assert!(matches!(reader.read_value(), Ok(TypedValue::Str(b"bar"))));
    assert!(matches!(reader.read_value(), Ok(TypedValue::Nil)));
    assert!(matches!(reader.read_value(), Ok(TypedValue::Int(258))));
    assert!(matches!(reader.read_value(), Err(Error::InputTooShort(31))));
}

#[test]
fn read_value_refuses_an_array() {
    let mut reader = Reader::new(b"\x04\x00\x00\x00\x00");
    assert!(matches!(reader.read_value(), Err(Error::InvalidDataType(4))));
    assert_eq!(b"\x04\x00\x00\x00\x00", reader.remaining());
}

#[test]
fn read_data_type_knows_the_five_tags() {
    let mut reader = Reader::new(b"\x00\x01\x02\x03\x04\x05");
    assert_eq!(Ok(DataType::Nil), reader.read_data_type());
    assert_eq!(Ok(DataType::Error), reader.read_data_type());
    assert_eq!(Ok(DataType::Str), reader.read_data_type());
    assert_eq!(Ok(DataType::Int), reader.read_data_type());
    assert_eq!(Ok(DataType::Arr), reader.read_data_type());
    assert_eq!(Err(Error::InvalidDataType(5)), reader.read_data_type());
    // the byte that is no tag is not consumed
    assert_eq!(b"\x05", reader.remaining());
}

#[test]
fn read_data_type_at_the_end_reports_the_length_of_the_input() {
    let mut reader = Reader::new(b"\x00\x00");
    assert_eq!(Ok(DataType::Nil), reader.read_data_type());
    assert_eq!(Ok(DataType::Nil), reader.read_data_type());
    assert_eq!(Err(Error::InputTooShort(2)), reader.read_data_type());
    let mut empty = Reader::new(b"");
    assert_eq!(Err(Error::InputTooShort(0)), empty.read_data_type());
}

#[test]
fn read_int_wants_an_integer() {
    let mut reader = Reader::new(b"\x02\x00\x00\x00\x00");
    assert_eq!(
        Err(Error::IncoherentDataType { got: DataType::Str, want: DataType::Int }),
        reader.read_int()
    );
    // the tag is consumed
    assert_eq!(b"\x00\x00\x00\x00", reader.remaining());
}

#[test]
fn read_int_wants_eight_bytes() {
    let mut reader = Reader::new(b"\x03\x00\x00\x00\x00\x00\x00\x00");
    assert_eq!(Err(Error::InputTooShort(7)), reader.read_int());
    assert_eq!(7, reader.clone_remaining().len());
}

#[test]
fn read_string_wants_a_string() {
    let mut reader = Reader::new(b"\x03\x00\x00\x00\x00\x00\x00\x00\x01");
    assert_eq!(
        Err(Error::IncoherentDataType { got: DataType::Int, want: DataType::Str }),
        reader.read_string()
    );
}

#[test]
fn read_string_wants_all_its_bytes() {
    let mut reader = Reader::new(b"\x02\x00\x00\x00\x05hell");
    assert_eq!(Err(Error::InputTooShort(4)), reader.read_string());
    // the tag and the length are consumed
    assert_eq!(b"hell", reader.remaining());
    let mut short = Reader::new(b"\x02\x00\x00");
    assert_eq!(Err(Error::InputTooShort(2)), short.read_string());
}

#[test]
fn read_err_reads_a_code_and_a_message() {
    let mut reader = Reader::new(b"\x00\x00\x00\x65\x00\x00\x00\x03foo!");
    assert_eq!(Ok((101, &b"foo"[..])), reader.read_err());
    assert_eq!(b"!", reader.remaining());
    let mut short = Reader::new(b"\x00\x00\x00\x65\x00\x00\x00\x03fo");
    assert_eq!(Err(Error::InputTooShort(2)), short.read_err());
}

#[test]
fn read_data_type_err_wants_an_error() {
    let mut reader = Reader::new(b"\x00");
    assert_eq!(
        Err(Error::IncoherentDataType { got: DataType::Nil, want: DataType::Error }),
        reader.read_data_type_err()
    );
    let mut good = Reader::new(b"\x01\x00\x00\x00\x01\x00\x00\x00\x00");
    assert_eq!(Ok((1, &b""[..])), good.read_data_type_err());
}

#[test]
fn remaining_is_what_was_not_read() {
    let mut reader = Reader::new(b"\x00\x03\x00\x00\x00\x00\x00\x00\x00\x2arest");
    assert!(reader.has_more());
    assert_eq!(Ok(DataType::Nil), reader.read_data_type());
    assert_eq!(Ok(42), reader.read_int());
    assert_eq!(b"rest".to_vec(), reader.clone_remaining());
    assert_eq!(b"rest", reader.remaining());
}

#[test]
fn data_type_tags_and_names() {
    assert_eq!(0, DataType::Nil.tag());
    assert_eq!(1, DataType::Error.tag());
    assert_eq!(2, DataType::Str.tag());
    assert_eq!(3, DataType::Int.tag());
    assert_eq!(4, DataType::Arr.tag());
    assert_eq!(Some(DataType::Int), DataType::from_tag(3));
    assert_eq!(None, DataType::from_tag(5));
    assert_eq!("nil", DataType::Nil.name());
    assert_eq!("err", DataType::Error.name());
    assert_eq!("str", DataType::Str.name());
    assert_eq!("int", DataType::Int.name());
    assert_eq!("arr", DataType::Arr.name());
}

#[test]
fn response_codes() {
    assert_eq!(0, ResponseCode::Success.code());
    assert_eq!(1, ResponseCode::Unknown.code());
    assert_eq!(2, ResponseCode::Nx.code());
    assert_eq!(101, ResponseCode::TooBig.code());
    assert_eq!(101, u32::from(ResponseCode::TooBig));
    assert_eq!(Ok(ResponseCode::Nx), ResponseCode::try_from(2));
    assert_eq!(Ok(ResponseCode::TooBig), ResponseCode::try_from(101));
    assert_eq!(Err("invalid response code"), ResponseCode::try_from(3));
    assert_eq!(Ok(ResponseCode::Unknown), ResponseCode::decode(1));
    assert_eq!(Err(Error::InvalidResponseCode(7)), ResponseCode::decode(7));
}

#[test]
fn buffer_size_needed_counts_header_count_and_strings() {
    let none: Vec<Vec<&[u8]>> = vec![];
    assert_eq!(13, buffer_size_needed(&none));
    let set: Vec<&[u8]> = vec![b"set", b"foo", b"bar"];
    assert_eq!(4 + 9 + 3 * (5 + 3), buffer_size_needed(&[set.clone()]));
    let get: Vec<&[u8]> = vec![b"get", b"a-longer-key"];
    assert_eq!(37 + 8 + 17, buffer_size_needed(&[set, get]));
}
