use my_own_redis::client::{decode_response, encode_request, QueryError};
use my_own_redis::connection::{
    action_after, try_fill_buffer, try_flush_buffer, try_one_request, Connection,
    ConnectionAction, NextStep, ReadOutcome, State, TryFillBufferError, TryOneRequestError,
    WriteOutcome,
};
use my_own_redis::executor::{do_del, do_get, do_request, do_set, Context};
use my_own_redis::protocol::{parse_message, Error, TypedValue, Writer, BUF_LEN, MAX_MSG_LEN};

fn request(args: &[&[u8]]) -> Vec<u8> {
    encode_request(&[args.to_vec()]).unwrap()
}

/// Hands `input` to the connection as one read, lets the connection run
/// until it waits, and collects what it sends, `chunk` bytes a write.
fn feed(
    context: &mut Context,
    connection: &mut Connection,
    input: &[u8],
    chunk: usize,
    sent: &mut Vec<u8>,
) -> Result<(), TryFillBufferError> {
    let mut input = input;
    let mut step = connection.first_step();
    loop {
        match step {
            NextStep::Read => {
                let outcome = if input.is_empty() {
                    ReadOutcome::WouldBlock
                } else {
                    let target = connection.read_target();
                    let n = target.len().min(input.len());
                    target[..n].copy_from_slice(&input[..n]);
                    input = &input[n..];
                    ReadOutcome::Data(n)
                };
                step = try_fill_buffer(context, connection, outcome)?;
            }
            NextStep::Write => {
                let pending = connection.write_buf.readable();
                let n = pending.len().min(chunk);
                sent.extend_from_slice(&pending[..n]);
                step = try_flush_buffer(context, connection, WriteOutcome::Written(n))?;
            }
            NextStep::Wait => return Ok(()),
        }
    }
}

/// The answers in `sent`, one value a message.
fn answers(sent: &[u8]) -> Vec<String> {
    let mut rest = sent;
    let mut all = Vec::new();
    while !rest.is_empty() {
        let (read, _) = parse_message(rest).unwrap();
        all.push(match decode_response(rest).unwrap() {
            TypedValue::Nil => "nil".to_string(),
            TypedValue::Error(code, message) => {
                format!("err {} {}", code, String::from_utf8_lossy(message))
            }
            TypedValue::Str(s) => format!("str {}", String::from_utf8_lossy(s)),
            TypedValue::Int(n) => format!("int {}", n),
        });
        rest = &rest[read..];
    }
    all
}

fn run(requests: &[Vec<u8>]) -> Vec<String> {
    let mut context = Context::new();
    let mut connection = Connection::new(7);
    let mut sent = Vec::new();
    let stream: Vec<u8> = requests.concat();
    feed(&mut context, &mut connection, &stream, BUF_LEN, &mut sent).unwrap();
    answers(&sent)
}

#[test]
fn set_then_get() {
    let got = run(&[request(&[b"set", b"foo", b"bar"]), request(&[b"get", b"foo"])]);
    assert_eq!(vec!["nil", "str bar"], got);
}

#[test]
fn set_answers_with_one_nil_message() {
    let mut context = Context::new();
    let mut connection = Connection::new(3);
    let mut sent = Vec::new();
    feed(&mut context, &mut connection, &request(&[b"set", b"foo", b"bar"]), BUF_LEN, &mut sent)
        .unwrap();
    assert_eq!(b"\x00\x00\x00\x01\x00", &sent[..]);
    assert_eq!(Some(&b"bar".to_vec()), context.data.get(b"foo"));
}

#[test]
fn get_absent() {
    assert_eq!(vec!["nil"], run(&[request(&[b"get", b"missing"])]));
}

#[test]
fn del_semantics() {
    let got = run(&[
        request(&[b"set", b"k", b"v"]),
        request(&[b"del", b"k"]),
        request(&[b"del", b"k"]),
    ]);
    assert_eq!(vec!["nil", "int 1", "int 0"], got);
}

#[test]
fn set_overwrites() {
    let got = run(&[
        request(&[b"set", b"k", b"v"]),
        request(&[b"set", b"k", b"w"]),
        request(&[b"get", b"k"]),
    ]);
    assert_eq!(vec!["nil", "nil", "str w"], got);
}

#[test]
fn pipelining_across_chunks() {
    let stream: Vec<u8> = [
        request(&[b"set", b"a", b"1"]),
        request(&[b"set", b"b", b"2"]),
        request(&[b"get", b"a"]),
        request(&[b"get", b"b"]),
    ]
    .concat();
    let want = vec!["nil", "nil", "str 1", "str 2"];
    for first in 0..stream.len() {
        for second in [first, (first + stream.len()) / 2, stream.len()] {
            let mut context = Context::new();
            let mut connection = Connection::new(7);
            let mut sent = Vec::new();
            feed(&mut context, &mut connection, &stream[..first], BUF_LEN, &mut sent).unwrap();
            feed(&mut context, &mut connection, &stream[first..second], BUF_LEN, &mut sent)
                .unwrap();
            feed(&mut context, &mut connection, &stream[second..], BUF_LEN, &mut sent).unwrap();
            assert_eq!(want, answers(&sent), "split at {} and {}", first, second);
        }
    }
}

#[test]
fn answers_come_in_order_whatever_a_write_takes() {
    let stream: Vec<u8> = [
        request(&[b"set", b"a", b"1"]),
        request(&[b"get", b"a"]),
        request(&[b"del", b"a"]),
        request(&[b"get", b"a"]),
    ]
    .concat();
    for chunk in 1..8 {
        let mut context = Context::new();
        let mut connection = Connection::new(7);
        let mut sent = Vec::new();
        feed(&mut context, &mut connection, &stream, chunk, &mut sent).unwrap();
        assert_eq!(vec!["nil", "str 1", "int 1", "nil"], answers(&sent));
        assert_eq!(State::ReadRequest, connection.state);
        assert!(connection.write_buf.is_empty());
    }
}

#[test]
fn oversize_closes_without_an_answer() {
    let mut context = Context::new();
    let mut connection = Connection::new(7);
    let mut sent = Vec::new();
    let mut stream = vec![0x00, 0x00, 0x13, 0x88];
    stream.resize(4 + 5000, 0x41);
    let r = feed(&mut context, &mut connection, &stream, BUF_LEN, &mut sent);
    assert_eq!(
        Err(TryFillBufferError::TryOneRequest(TryOneRequestError::Protocol(
            Error::MessageTooLong(5000)
        ))),
        r
    );
    assert!(sent.is_empty());
    assert_eq!(ConnectionAction::Delete, action_after(&Err(r.unwrap_err())));
}

#[test]
fn a_body_that_does_not_parse_is_answered_with_an_error() {
    let got = run(&[
        // a string where the count is due
        b"\x00\x00\x00\x02\x02\x00".to_vec(),
        // a byte that is no tag
        b"\x00\x00\x00\x01\x2a".to_vec(),
        // a count that ends too early
        b"\x00\x00\x00\x03\x03\x00\x00".to_vec(),
        // a nil where a string is due
        b"\x00\x00\x00\x0a\x03\x00\x00\x00\x00\x00\x00\x00\x01\x00".to_vec(),
        request(&[b"get", b"k"]),
    ]);
    assert_eq!(
        vec![
            "err 1 internal error",
            "err 1 internal error",
            "err 1 internal error",
            "err 1 internal error",
            "nil"
        ],
        got
    );
}

#[test]
fn an_empty_body_is_answered_with_an_error() {
    assert_eq!(vec!["err 1 internal error"], run(&[b"\x00\x00\x00\x00".to_vec()]));
}

#[test]
fn a_request_without_arguments_is_an_unknown_command() {
    assert_eq!(
        vec!["err 1 invalid command "],
        run(&[b"\x00\x00\x00\x09\x03\x00\x00\x00\x00\x00\x00\x00\x00".to_vec()])
    );
}

#[test]
fn an_unknown_command_is_named_in_the_answer() {
    assert_eq!(vec!["err 1 invalid command ping"], run(&[request(&[b"ping"])]));
    assert_eq!(vec!["err 1 invalid command GET"], run(&[request(&[b"GET", b"k"])]));
}

#[test]
fn a_command_that_lacks_arguments_is_an_unknown_command() {
    assert_eq!(vec!["err 1 invalid command get"], run(&[request(&[b"get"])]));
    assert_eq!(vec!["err 1 invalid command set"], run(&[request(&[b"set", b"k"])]));
    assert_eq!(vec!["err 1 invalid command del"], run(&[request(&[b"del"])]));
}

#[test]
fn arguments_beyond_those_needed_are_ignored() {
    let got = run(&[
        request(&[b"set", b"k", b"v", b"more"]),
        request(&[b"get", b"k", b"more"]),
        request(&[b"del", b"k", b"more"]),
    ]);
    assert_eq!(vec!["nil", "str v", "int 1"], got);
}

#[test]
fn a_name_that_is_no_text_is_answered_with_replacement_characters() {
    let mut context = Context::new();
    let mut connection = Connection::new(7);
    let mut sent = Vec::new();
    feed(&mut context, &mut connection, &request(&[b"p\xffg"]), BUF_LEN, &mut sent).unwrap();
    match decode_response(&sent).unwrap() {
        TypedValue::Error(1, message) => {
            assert_eq!("invalid command p\u{fffd}g".as_bytes(), message)
        }
        other => panic!("{:?}", other),
    }
}

#[test]
fn a_key_that_is_no_text_is_refused() {
    let got = run(&[
        request(&[b"get", b"\xff"]),
        request(&[b"del", b"\xc3"]),
        request(&[b"set", b"\xff", b"v"]),
        request(&[b"set", b"k", b"\xe2\x82"]),
        request(&[b"get", b"k"]),
        request(&[b"set", "gr\u{fc}n".as_bytes(), "\u{20ac}".as_bytes()]),
        request(&[b"get", "gr\u{fc}n".as_bytes()]),
    ]);
    assert_eq!(
        vec![
            "err 1 invalid key",
            "err 1 invalid key",
            "err 1 invalid key/value",
            "err 1 invalid key/value",
            "nil",
            "nil",
            "str \u{20ac}",
        ],
        got
    );
}

#[test]
fn a_name_too_long_for_an_answer_gets_the_stand_in() {
    // "invalid command " and a name of 4071 bytes make a body of 4096 bytes
    let fits = vec![b'y'; MAX_MSG_LEN - 9 - 16];
    let mut context = Context::new();
    let mut buf = vec![0u8; BUF_LEN];
    assert_eq!(Ok(BUF_LEN), do_request(&mut context, &request(&[&fits])[4..], &mut buf));
    assert_eq!(b"invalid command yyyy", &buf[13..33]);
    assert_eq!(b'y', buf[BUF_LEN - 1]);
    let long = vec![b'y'; MAX_MSG_LEN - 9 - 16 + 1];
    assert_eq!(Ok(4 + 9 + 19), do_request(&mut context, &request(&[&long])[4..], &mut buf));
    assert_eq!(vec!["err 101 response is too big"], run(&[request(&[&long])]));
}

#[test]
fn do_request_writes_one_message() {
    let mut context = Context::new();
    let mut buf = vec![0xaau8; BUF_LEN];
    let set = request(&[b"set", b"foo", b"bar"]);
    assert_eq!(Ok(5), do_request(&mut context, &set[4..], &mut buf));
    assert_eq!(b"\x00\x00\x00\x01\x00\xaa", &buf[..6]);
    let get = request(&[b"get", b"foo"]);
    assert_eq!(Ok(12), do_request(&mut context, &get[4..], &mut buf));
    assert_eq!(b"\x00\x00\x00\x08\x02\x00\x00\x00\x03bar\xaa", &buf[..13]);
    let del = request(&[b"del", b"foo"]);
    assert_eq!(Ok(13), do_request(&mut context, &del[4..], &mut buf));
    assert_eq!(b"\x00\x00\x00\x09\x03\x00\x00\x00\x00\x00\x00\x00\x01\xaa", &buf[..14]);
    assert_eq!(Ok(27), do_request(&mut context, b"\x03", &mut buf));
    assert_eq!(b"\x00\x00\x00\x17\x01\x00\x00\x00\x01\x00\x00\x00\x0einternal error\xaa", &buf[..28]);
}

#[test]
fn do_request_answers_a_body_that_does_not_parse_and_keeps_the_keyspace() {
    let mut context = Context::new();
    context.data.insert(b"foo".to_vec(), b"bar".to_vec());
    let mut buf = vec![0u8; BUF_LEN];
    assert_eq!(Ok(27), do_request(&mut context, b"\xff", &mut buf));
    assert_eq!(&[0, 0, 0, 23, 1, 0, 0, 0, 1, 0, 0, 0, 14], &buf[0..13]);
    assert_eq!(b"internal error", &buf[13..27]);
    assert_eq!(0, buf[27]);
    assert_eq!(Some(&b"bar".to_vec()), context.data.get(b"foo"));
    assert_eq!(1, context.data.key_iter().len());
    assert_eq!(Ok(27), do_request(&mut context, b"", &mut buf));
    assert_eq!(b"internal error", &buf[13..27]);
    assert_eq!(1, context.data.len());
}

#[test]
fn executors_write_through_the_writer() {
    let mut context = Context::new();
    let mut buf = vec![0u8; BUF_LEN];
    let written = {
        let mut writer = Writer::new(&mut buf);
        do_set(&mut context, &[b"k", b"v"], &mut writer);
        do_get(&mut context, &[b"k"], &mut writer);
        do_get(&mut context, &[b"other"], &mut writer);
        do_del(&mut context, &[b"k"], &mut writer);
        do_del(&mut context, &[b"k"], &mut writer);
        do_get(&mut context, &[b"\xff"], &mut writer);
        writer.finish();
        writer.written()
    };
    let mut want = b"\x00\x00\x00\x2e\x00\x02\x00\x00\x00\x01v\x00".to_vec();
    want.extend_from_slice(b"\x03\x00\x00\x00\x00\x00\x00\x00\x01");
    want.extend_from_slice(b"\x03\x00\x00\x00\x00\x00\x00\x00\x00");
    want.extend_from_slice(b"\x01\x00\x00\x00\x01\x00\x00\x00\x0binvalid key");
    assert_eq!(want, &buf[..written]);
}

#[test]
fn an_answer_that_fills_the_write_buffer_is_sent_and_the_buffer_reset() {
    let mut context = Context::new();
    // the longest value that fits in an answer: 4096 - 5 bytes
    context.data.insert(b"big".to_vec(), vec![b'x'; MAX_MSG_LEN - 5]);
    let mut connection = Connection::new(7);
    let mut sent = Vec::new();
    let get = request(&[b"get", b"big"]);
    {
        let target = connection.read_target();
        target[..get.len()].copy_from_slice(&get);
    }
    assert_eq!(
        Ok(NextStep::Write),
        try_fill_buffer(&mut context, &mut connection, ReadOutcome::Data(get.len()))
    );
    assert_eq!(State::SendResponse, connection.state);
    assert_eq!(BUF_LEN, connection.write_buf.readable().len());
    assert_eq!(0, connection.write_buf.writable().len());
    sent.extend_from_slice(&connection.write_buf.readable()[..4000]);
    assert_eq!(
        Ok(NextStep::Write),
        try_flush_buffer(&mut context, &mut connection, WriteOutcome::Written(4000))
    );
    assert_eq!(100, connection.write_buf.readable().len());
    assert_eq!(
        Ok(NextStep::Wait),
        try_flush_buffer(&mut context, &mut connection, WriteOutcome::WouldBlock)
    );
    sent.extend_from_slice(connection.write_buf.readable());
    assert_eq!(
        Ok(NextStep::Read),
        try_flush_buffer(&mut context, &mut connection, WriteOutcome::Written(100))
    );
    assert_eq!(State::ReadRequest, connection.state);
    assert!(connection.write_buf.is_empty());
    assert_eq!(BUF_LEN, connection.write_buf.writable().len());
    match decode_response(&sent).unwrap() {
        TypedValue::Str(s) => assert_eq!(vec![b'x'; MAX_MSG_LEN - 5], s),
        other => panic!("{:?}", other),
    }
    assert_eq!(BUF_LEN, sent.len());
}

#[test]
fn a_value_too_long_for_an_answer_gets_the_stand_in() {
    let mut context = Context::new();
    context.data.insert(b"big".to_vec(), vec![b'x'; MAX_MSG_LEN - 4]);
    let mut connection = Connection::new(7);
    let mut sent = Vec::new();
    feed(&mut context, &mut connection, &request(&[b"get", b"big"]), BUF_LEN, &mut sent).unwrap();
    assert_eq!(vec!["err 101 response is too big"], answers(&sent));
}

#[test]
fn a_request_of_the_longest_body_is_run() {
    // count, name, key and value make a body of exactly 4096 bytes
    let value = vec![b'v'; MAX_MSG_LEN - 9 - 8 - 6 - 5];
    let mut body = b"\x03\x00\x00\x00\x00\x00\x00\x00\x03\x02\x00\x00\x00\x03set\x02\x00\x00\x00\x01k".to_vec();
    body.push(2);
    body.extend_from_slice(&(value.len() as u32).to_be_bytes());
    body.extend_from_slice(&value);
    assert_eq!(MAX_MSG_LEN, body.len());
    let mut stream = (body.len() as u32).to_be_bytes().to_vec();
    stream.extend_from_slice(&body);
    stream.extend_from_slice(&request(&[b"get", b"k"]));
    let mut context = Context::new();
    let mut connection = Connection::new(7);
    let mut sent = Vec::new();
    feed(&mut context, &mut connection, &stream, BUF_LEN, &mut sent).unwrap();
    let all = answers(&sent);
    assert_eq!(2, all.len());
    assert_eq!("nil", all[0]);
    assert_eq!(format!("str {}", String::from_utf8(value).unwrap()), all[1]);
}

#[test]
fn the_end_of_the_stream_and_failures_close_the_connection() {
    let mut context = Context::new();
    let mut connection = Connection::new(7);
    assert_eq!(
        Err(TryFillBufferError::EndOfStream),
        try_fill_buffer(&mut context, &mut connection, ReadOutcome::EndOfStream)
    );
    assert_eq!(
        Err(TryFillBufferError::EndOfStream),
        try_fill_buffer(&mut context, &mut connection, ReadOutcome::Data(0))
    );
    assert_eq!(
        Err(TryFillBufferError::IO(104)),
        try_fill_buffer(&mut context, &mut connection, ReadOutcome::Failed(104))
    );
    assert_eq!(
        Ok(NextStep::Wait),
        try_fill_buffer(&mut context, &mut connection, ReadOutcome::WouldBlock)
    );
    let mut sent = Vec::new();
    let get = request(&[b"get", b"k"]);
    {
        let target = connection.read_target();
        target[..get.len()].copy_from_slice(&get);
    }
    try_fill_buffer(&mut context, &mut connection, ReadOutcome::Data(get.len())).unwrap();
    assert_eq!(
        Err(TryFillBufferError::IO(32)),
        try_flush_buffer(&mut context, &mut connection, WriteOutcome::Failed(32))
    );
    sent.extend_from_slice(connection.write_buf.readable());
    assert_eq!(vec!["nil"], answers(&sent));
}

#[test]
fn a_connection_polls_for_what_its_state_needs() {
    let mut context = Context::new();
    let mut connection = Connection::new(9);
    assert_eq!(9, connection.fd);
    let interest = connection.interest();
    assert!(interest.readable && !interest.writable && interest.error);
    assert_eq!(NextStep::Read, connection.first_step());
    let get = request(&[b"get", b"k"]);
    {
        let target = connection.read_target();
        target[..get.len()].copy_from_slice(&get);
    }
    try_fill_buffer(&mut context, &mut connection, ReadOutcome::Data(get.len())).unwrap();
    let interest = connection.interest();
    assert!(!interest.readable && interest.writable && interest.error);
    assert_eq!(NextStep::Write, connection.first_step());
    assert_eq!(ConnectionAction::DoNothing, action_after(&Ok(NextStep::Wait)));
    assert_eq!(
        ConnectionAction::Delete,
        action_after(&Err(TryFillBufferError::EndOfStream))
    );
}

#[test]
fn try_one_request_waits_for_a_whole_message() {
    let mut context = Context::new();
    let mut connection = Connection::new(7);
    let get = request(&[b"get", b"k"]);
    connection.read_buf.writable()[..get.len()].copy_from_slice(&get);
    connection.read_buf.update_write_head(get.len() - 1);
    assert_eq!(Ok(false), try_one_request(&mut context, &mut connection));
    assert_eq!(get.len() - 1, connection.read_buf.readable().len());
    assert!(connection.write_buf.is_empty());
    connection.read_buf.update_write_head(1);
    assert_eq!(Ok(true), try_one_request(&mut context, &mut connection));
    assert!(connection.read_buf.is_empty());
    assert_eq!(b"\x00\x00\x00\x01\x00", connection.write_buf.readable());
    assert_eq!(State::SendResponse, connection.state);
}

#[test]
fn query_error_for_a_message_that_is_too_long() {
    let long = vec![b'x'; MAX_MSG_LEN];
    assert_eq!(
        Err(QueryError::MessageTooLong(4 + 9 + 8 + 5 + MAX_MSG_LEN)),
        encode_request(&[vec![&b"get"[..], &long[..]]])
    );
}
