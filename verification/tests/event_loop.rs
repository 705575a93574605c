use my_own_redis::client::encode_request;
use my_own_redis::connection::{
    read_outcome, try_fill_buffer, try_flush_buffer, write_outcome, NextStep, PollInterest,
    ReadOutcome, State, WriteOutcome,
};
use my_own_redis::event_loop::{Dispatch, EventLoop, PollEntry};
use my_own_redis::executor::Context;

fn listen_entry(fd: i32) -> PollEntry {
    PollEntry { fd, interest: PollInterest { readable: true, writable: false, error: false } }
}

fn read_entry(fd: i32) -> PollEntry {
    PollEntry { fd, interest: PollInterest { readable: true, writable: false, error: true } }
}

fn write_entry(fd: i32) -> PollEntry {
    PollEntry { fd, interest: PollInterest { readable: false, writable: true, error: true } }
}

/// The list of what to poll: the first entry, and the others by descriptor.
fn polled(event_loop: &mut EventLoop) -> (PollEntry, Vec<PollEntry>) {
    event_loop.prepare_poll();
    let entries = event_loop.poll_entries();
    let mut rest = entries[1..].to_vec();
    rest.sort_by_key(|entry| entry.fd);
    (entries[0], rest)
}

#[test]
fn the_listening_descriptor_is_polled_first_and_for_input() {
    let mut event_loop = EventLoop::new(3);
    assert_eq!(3, event_loop.listen_fd());
    assert_eq!(0, event_loop.len());
    event_loop.prepare_poll();
    assert_eq!(&[listen_entry(3)], event_loop.poll_entries());
    for fd in 10..40 {
        assert!(event_loop.accept(fd));
    }
    event_loop.prepare_poll();
    assert_eq!(31, event_loop.poll_entries().len());
    assert_eq!(listen_entry(3), event_loop.poll_entries()[0]);
}

#[test]
fn each_connection_is_polled_for_what_its_state_needs() {
    let mut context = Context::new();
    let mut event_loop = EventLoop::new(3);
    assert!(event_loop.accept(5));
    assert!(event_loop.accept(4));
    assert_eq!((listen_entry(3), vec![read_entry(4), read_entry(5)]), polled(&mut event_loop));

    let get = encode_request(&[vec![&b"get"[..], &b"k"[..]]]).unwrap();
    let mut connection = event_loop.take(4).unwrap();
    assert_eq!((listen_entry(3), vec![read_entry(5)]), polled(&mut event_loop));
    connection.read_target()[..get.len()].copy_from_slice(&get);
    assert_eq!(
        Ok(NextStep::Write),
        try_fill_buffer(&mut context, &mut connection, ReadOutcome::Data(get.len()))
    );
    assert_eq!(
        Ok(NextStep::Wait),
        try_flush_buffer(&mut context, &mut connection, WriteOutcome::WouldBlock)
    );
    event_loop.put_back(connection);
    assert_eq!((listen_entry(3), vec![write_entry(4), read_entry(5)]), polled(&mut event_loop));
    assert_eq!(State::SendResponse, event_loop.connection(4).unwrap().state);
    assert_eq!(b"\x00\x00\x00\x01\x00", event_loop.connection(4).unwrap().write_buf.readable());

    let mut connection = event_loop.take(4).unwrap();
    assert_eq!(
        Ok(NextStep::Read),
        try_flush_buffer(&mut context, &mut connection, WriteOutcome::Written(5))
    );
    event_loop.put_back(connection);
    assert_eq!((listen_entry(3), vec![read_entry(4), read_entry(5)]), polled(&mut event_loop));
}

#[test]
fn dispatch_goes_by_descriptor_and_state() {
    let mut context = Context::new();
    let mut event_loop = EventLoop::new(3);
    event_loop.accept(5);
    event_loop.accept(4);
    assert_eq!(Dispatch::Ignore, event_loop.dispatch(3, 0));
    assert_eq!(Dispatch::Ignore, event_loop.dispatch(5, 0));
    assert_eq!(Dispatch::Accept, event_loop.dispatch(3, 1));
    assert_eq!(Dispatch::Serve(NextStep::Read), event_loop.dispatch(5, 1));
    assert_eq!(Dispatch::Serve(NextStep::Read), event_loop.dispatch(4, 8));
    assert_eq!(Dispatch::Ignore, event_loop.dispatch(9, 1));
    let get = encode_request(&[vec![&b"get"[..], &b"k"[..]]]).unwrap();
    let mut connection = event_loop.take(4).unwrap();
    assert_eq!(Dispatch::Ignore, event_loop.dispatch(4, 1));
    connection.read_target()[..get.len()].copy_from_slice(&get);
    try_fill_buffer(&mut context, &mut connection, ReadOutcome::Data(get.len())).unwrap();
    event_loop.put_back(connection);
    assert_eq!(Dispatch::Serve(NextStep::Write), event_loop.dispatch(4, 4));
    assert_eq!(Dispatch::Serve(NextStep::Read), event_loop.dispatch(5, 4));
}

#[test]
fn a_descriptor_is_in_the_connection_set_once() {
    let mut context = Context::new();
    let mut event_loop = EventLoop::new(3);
    assert!(event_loop.accept(5));
    assert!(event_loop.accept(6));
    let mut connection = event_loop.take(5).unwrap();
    connection.read_target()[..2].copy_from_slice(b"\x00\x00");
    assert_eq!(
        Ok(NextStep::Read),
        try_fill_buffer(&mut context, &mut connection, ReadOutcome::Data(2))
    );
    event_loop.put_back(connection);
    assert_eq!(2, event_loop.connection(5).unwrap().read_buf.readable().len());
    // the descriptor comes again: the connection starts anew
    assert!(event_loop.accept(5));
    assert_eq!(2, event_loop.len());
    assert_eq!(0, event_loop.connection(5).unwrap().read_buf.readable().len());
    assert_eq!(6, event_loop.connection(6).unwrap().fd);
    assert!(event_loop.connection(7).is_none());
    // the listening descriptor is no connection
    assert!(!event_loop.accept(3));
    assert_eq!(2, event_loop.len());
    assert!(event_loop.connection(3).is_none());
}

#[test]
fn a_connection_that_is_taken_is_gone_until_it_is_put_back() {
    let mut event_loop = EventLoop::new(3);
    event_loop.accept(5);
    event_loop.accept(6);
    event_loop.accept(7);
    let connection = event_loop.take(6).unwrap();
    assert_eq!(6, connection.fd);
    assert_eq!(2, event_loop.len());
    assert!(event_loop.take(6).is_none());
    assert!(event_loop.connection(6).is_none());
    assert_eq!(7, event_loop.connection(7).unwrap().fd);
    event_loop.put_back(connection);
    assert_eq!(3, event_loop.len());
    assert_eq!(6, event_loop.connection(6).unwrap().fd);
    assert!(event_loop.take(9).is_none());
    assert_eq!(3, event_loop.len());
}

#[test]
fn outcomes_go_by_the_count_and_the_error_number() {
    assert_eq!(ReadOutcome::Data(12), read_outcome(12, 0, 11, 11));
    assert_eq!(ReadOutcome::EndOfStream, read_outcome(0, 0, 11, 11));
    assert_eq!(ReadOutcome::WouldBlock, read_outcome(-1, 11, 11, 35));
    assert_eq!(ReadOutcome::WouldBlock, read_outcome(-1, 35, 11, 35));
    assert_eq!(ReadOutcome::Failed(104), read_outcome(-1, 104, 11, 35));
    // the error number counts only after a failure
    assert_eq!(ReadOutcome::Data(1), read_outcome(1, 11, 11, 11));
    assert_eq!(WriteOutcome::Written(12), write_outcome(12, 0, 11, 11));
    assert_eq!(WriteOutcome::Written(0), write_outcome(0, 0, 11, 11));
    assert_eq!(WriteOutcome::WouldBlock, write_outcome(-1, 11, 11, 35));
    assert_eq!(WriteOutcome::WouldBlock, write_outcome(-1, 35, 11, 35));
    assert_eq!(WriteOutcome::Failed(32), write_outcome(-1, 32, 11, 35));
}
