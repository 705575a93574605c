//! The state machine of one connection: it reads requests, runs them one
//! at a time, and sends each answer before it runs the next request.
//!
//! The machine performs no input or output itself. The caller reads into
//! the read buffer or writes from the write buffer, and hands the outcome
//! to the machine, which says what to do next.

use vstd::prelude::*;
use crate::connection_buffer::ConnectionBuffer;
use crate::executor::{do_request, spec_do_request, spec_keyspace_after, sets_shadowed_key};
use crate::executor::{lemma_answer_fits, Context, DoRequestError};
use crate::protocol::{frame, parse_message, spec_parse_message, Error, Value, BUF_LEN};
use crate::bytes::lemma_u32_be_len;

verus! {

/// What a connection is doing.
#[derive(Debug, Clone, Copy, PartialEq, Eq, Structural)]
pub enum State {
    /// It waits for the bytes of a request.
    ReadRequest,
    /// It has an answer to send.
    SendResponse,
}

/// A connection: its descriptor, its state, and a buffer for each direction.
pub struct Connection {
    pub fd: i32,
    pub state: State,
    pub read_buf: ConnectionBuffer,
    pub write_buf: ConnectionBuffer,
    /// What went over the connection so far.
    pub history: Ghost<History>,
}

/// A request that was run, the keyspace that it was run against, and
/// the answer that was given.
pub struct Exchange {
    pub request: Seq<u8>,
    pub before: Context,
    pub answer: Value,
}

/// What went over a connection: the bytes that came in, the bytes that
/// went out, and the requests that were run, in order.
pub struct History {
    pub received: Seq<u8>,
    pub sent: Seq<u8>,
    pub exchanges: Seq<Exchange>,
}

/// The messages that hold `answers`, one after the other.
pub open spec fn frames(answers: Seq<Value>) -> Seq<u8>
    decreases answers.len(),
{
    if answers.len() == 0 {
        Seq::empty()
    } else {
        frames(answers.drop_last()) + frame(answers.last().encoding())
    }
}

impl History {
    /// The history of a connection over which nothing went yet.
    pub open spec fn empty() -> History {
        History { received: Seq::empty(), sent: Seq::empty(), exchanges: Seq::empty() }
    }

    /// The bodies of the requests that were run, in order.
    pub open spec fn requests(self) -> Seq<Seq<u8>> {
        Seq::new(self.exchanges.len(), |i: int| self.exchanges[i].request)
    }

    /// The answers that were given, in order.
    pub open spec fn answers(self) -> Seq<Value> {
        Seq::new(self.exchanges.len(), |i: int| self.exchanges[i].answer)
    }

    /// The history after `bytes` came in.
    pub open spec fn receive(self, bytes: Seq<u8>) -> History {
        History { received: self.received + bytes, ..self }
    }

    /// The history after `bytes` went out.
    pub open spec fn send(self, bytes: Seq<u8>) -> History {
        History { sent: self.sent + bytes, ..self }
    }

    /// The history after `exchange` took place.
    pub open spec fn run(self, exchange: Exchange) -> History {
        History { exchanges: self.exchanges.push(exchange), ..self }
    }

    /// The history fits a connection in whose buffers `pending_in` waits
    /// to be run and `pending_out` waits to be sent:
    ///
    /// - the requests in the bytes that came in are those that were run,
    ///   followed by those in the bytes that wait to be run;
    /// - each answer is the one that its request has against the keyspace
    ///   of its time;
    /// - and the bytes that went out, with those that wait to be sent,
    ///   are the answers in order, one message each.
    pub open spec fn orderly(self, pending_in: Seq<u8>, pending_out: Seq<u8>) -> bool {
        &&& requests_in(self.received) == (
            self.requests() + requests_in(pending_in).0,
            requests_in(pending_in).1,
        )
        &&& forall|i: int|
            0 <= i < self.exchanges.len() ==> spec_do_request(
                (#[trigger] self.exchanges[i]).before.data,
                self.exchanges[i].request,
            ) == self.exchanges[i].answer
        &&& self.sent + pending_out == frames(self.answers())
    }
}

/// The events that a connection wants to hear of.
#[derive(Debug, Clone, Copy, PartialEq, Eq, Structural)]
pub struct PollInterest {
    /// Bytes can be read.
    pub readable: bool,
    /// Bytes can be written.
    pub writable: bool,
    /// The descriptor is in error.
    pub error: bool,
}

/// How a read on the connection went.
#[derive(Debug, Clone, Copy, PartialEq, Eq, Structural)]
pub enum ReadOutcome {
    /// That many bytes were put behind the write head of the read buffer.
    Data(usize),
    /// The peer has closed the connection.
    EndOfStream,
    /// Nothing can be read for now.
    WouldBlock,
    /// The read failed, with this error number.
    Failed(i32),
}

/// How a write on the connection went.
#[derive(Debug, Clone, Copy, PartialEq, Eq, Structural)]
pub enum WriteOutcome {
    /// That many of the pending bytes of the write buffer were sent.
    Written(usize),
    /// Nothing can be written for now.
    WouldBlock,
    /// The write failed, with this error number.
    Failed(i32),
}

/// What to do next with a connection.
#[derive(Debug, Clone, Copy, PartialEq, Eq, Structural)]
pub enum NextStep {
    /// Read into the read buffer and report the outcome.
    Read,
    /// Write from the write buffer and report the outcome.
    Write,
    /// Leave the connection until it is ready again.
    Wait,
}

/// What to do with a connection once it was served.
#[derive(Debug, Clone, Copy, PartialEq, Eq, Structural)]
pub enum ConnectionAction {
    DoNothing,
    Delete,
}

/// Why a request could not be taken from the read buffer and answered.
#[derive(Debug, Clone, Copy, PartialEq, Eq, Structural)]
pub enum TryOneRequestError {
    /// The request was not answered; no request gives this.
    DoRequest(DoRequestError),
    /// The message is longer than a message may be.
    Protocol(Error),
}

/// Why a connection is to be closed.
#[derive(Debug, Clone, Copy, PartialEq, Eq, Structural)]
pub enum TryFillBufferError {
    /// A request was refused.
    TryOneRequest(TryOneRequestError),
    /// A read or a write failed, with this error number.
    IO(i32),
    /// The peer has closed the connection.
    EndOfStream,
}

/// What a read comes to that returned `n`, with the error number `errno`
/// where `n` is negative: bytes, the end of the stream where there are
/// none, a read that would block where the error number is `again` or
/// `would_block`, and a failure on any other error number.
pub open spec fn spec_read_outcome(
    n: isize,
    errno: i32,
    again: i32,
    would_block: i32,
) -> ReadOutcome {
    if n > 0 {
        ReadOutcome::Data(n as usize)
    } else if n == 0 {
        ReadOutcome::EndOfStream
    } else if errno == again || errno == would_block {
        ReadOutcome::WouldBlock
    } else {
        ReadOutcome::Failed(errno)
    }
}

/// What a write comes to that returned `n`, with the error number `errno`
/// where `n` is negative: bytes that were sent, a write that would block
/// where the error number is `again` or `would_block`, and a failure on
/// any other error number.
pub open spec fn spec_write_outcome(
    n: isize,
    errno: i32,
    again: i32,
    would_block: i32,
) -> WriteOutcome {
    if n >= 0 {
        WriteOutcome::Written(n as usize)
    } else if errno == again || errno == would_block {
        WriteOutcome::WouldBlock
    } else {
        WriteOutcome::Failed(errno)
    }
}

/// Tells how a read went from what it returned, the error number, and
/// the two error numbers that stand for a read that would block.
pub fn read_outcome(n: isize, errno: i32, again: i32, would_block: i32) -> (outcome: ReadOutcome)
    ensures
        outcome == spec_read_outcome(n, errno, again, would_block),
{
    if n > 0 {
        ReadOutcome::Data(n as usize)
    } else if n == 0 {
        ReadOutcome::EndOfStream
    } else if errno == again || errno == would_block {
        ReadOutcome::WouldBlock
    } else {
        ReadOutcome::Failed(errno)
    }
}

/// Tells how a write went from what it returned, the error number, and
/// the two error numbers that stand for a write that would block.
pub fn write_outcome(n: isize, errno: i32, again: i32, would_block: i32) -> (outcome: WriteOutcome)
    ensures
        outcome == spec_write_outcome(n, errno, again, would_block),
{
    if n >= 0 {
        WriteOutcome::Written(n as usize)
    } else if errno == again || errno == would_block {
        WriteOutcome::WouldBlock
    } else {
        WriteOutcome::Failed(errno)
    }
}

/// What `try_one_request` makes of a keyspace `before`, of a history
/// `was` and of the pending bytes `pending` of a connection that waits
/// for a request.
///
/// While no whole message is pending, nothing happens and the result is
/// `Ok(false)`. A message that is too long is an error, and nothing else
/// happens. Any other message is taken from the read buffer and run, its
/// answer is the one message that is pending in the write buffer, the
/// connection goes on to send it, and the result is `Ok(true)`.
pub open spec fn served(
    before: Context,
    was: History,
    pending: Seq<u8>,
    after: Context,
    connection: Connection,
    r: Result<bool, TryOneRequestError>,
) -> bool {
    match spec_parse_message(pending) {
        Err(Error::InputTooShort(_)) => {
            &&& r == Ok::<bool, TryOneRequestError>(false)
            &&& after == before
            &&& connection.state == State::ReadRequest
            &&& connection.read_buf.pending() == pending
            &&& connection.history@ == was
        },
        Err(e) => {
            &&& r == Err::<bool, TryOneRequestError>(TryOneRequestError::Protocol(e))
            &&& after == before
        },
        Ok((read, body)) => {
            let answer = spec_do_request(before.data, body);
            &&& r == Ok::<bool, TryOneRequestError>(true)
            &&& after@ == spec_keyspace_after(before.data, body)
            &&& before.data.disjoint() && !sets_shadowed_key(before.data, body)
                ==> after.data.disjoint()
            &&& connection.state == State::SendResponse
            &&& connection.read_buf.pending() == pending.skip(read as int)
            &&& connection.write_buf.pending() == frame(answer.encoding())
            &&& connection.history@ == was.run(Exchange { request: body, before, answer })
        },
    }
}

impl Connection {
    /// Both buffers are well formed; while the connection waits for a
    /// request its write buffer is empty, with both heads at the start;
    /// and while it has an answer to send, bytes are pending in its
    /// write buffer.
    pub open spec fn wf(&self) -> bool {
        &&& self.read_buf.wf()
        &&& self.write_buf.wf()
        &&& match self.state {
            State::ReadRequest => self.write_buf.read_pos() == 0 && self.write_buf.write_pos() == 0,
            State::SendResponse => self.write_buf.pending().len() > 0,
        }
    }

    /// No whole message is pending in the read buffer of a connection
    /// that waits for a request: the bytes of the next one have to be read.
    pub open spec fn drained(&self) -> bool {
        self.state == State::ReadRequest ==> spec_parse_message(self.read_buf.pending())
            is Err && spec_parse_message(self.read_buf.pending())->Err_0 is InputTooShort
    }

    /// The history fits what is pending in the buffers.
    pub open spec fn orderly(&self) -> bool {
        self.history@.orderly(self.read_buf.pending(), self.write_buf.pending())
    }

    /// A connection on `fd` that waits for its first request.
    pub fn new(fd: i32) -> (connection: Self)
        ensures
            connection.wf(),
            connection.drained(),
            connection.orderly(),
            connection.fd == fd,
            connection.state == State::ReadRequest,
            connection.read_buf.read_pos() == 0,
            connection.read_buf.write_pos() == 0,
            connection.history@ == History::empty(),
    {
        let connection = Connection {
            fd,
            state: State::ReadRequest,
            read_buf: ConnectionBuffer::new(),
            write_buf: ConnectionBuffer::new(),
            history: Ghost(History::empty()),
        };
        proof {
            assert(connection.read_buf.pending() =~= Seq::<u8>::empty());
            assert(connection.write_buf.pending() =~= Seq::<u8>::empty());
            assert(History::empty().requests() + requests_in(Seq::<u8>::empty()).0
                =~= requests_in(Seq::<u8>::empty()).0);
            assert(History::empty().answers() =~= Seq::<Value>::empty());
            assert(History::empty().sent + Seq::<u8>::empty() =~= frames(Seq::<Value>::empty()));
        }
        connection
    }

    /// The events to poll for: input while the connection waits for a
    /// request, output while it has an answer to send, errors in both states.
    pub fn interest(&self) -> (interest: PollInterest)
        ensures
            interest.readable == (self.state == State::ReadRequest),
            interest.writable == (self.state == State::SendResponse),
            interest.error,
    {
        match self.state {
            State::ReadRequest => PollInterest { readable: true, writable: false, error: true },
            State::SendResponse => PollInterest { readable: false, writable: true, error: true },
        }
    }

    /// What to do first with a connection that is ready.
    pub fn first_step(&self) -> (step: NextStep)
        ensures
            step == match self.state {
                State::ReadRequest => NextStep::Read,
                State::SendResponse => NextStep::Write,
            },
    {
        match self.state {
            State::ReadRequest => NextStep::Read,
            State::SendResponse => NextStep::Write,
        }
    }
}

/// Takes one request from the read buffer, runs it, and puts the answer
/// in the write buffer.
pub fn try_one_request(context: &mut Context, connection: &mut Connection) -> (r: Result<
    bool,
    TryOneRequestError,
>)
    requires
        old(context).wf(),
        old(connection).wf(),
        old(connection).state == State::ReadRequest,
    ensures
        final(context).wf(),
        final(connection).wf(),
        final(connection).fd == old(connection).fd,
        served(
            *old(context),
            old(connection).history@,
            old(connection).read_buf.pending(),
            *final(context),
            *final(connection),
            r,
        ),
        r is Ok ==> final(connection).drained(),
        r is Ok && old(connection).orderly() ==> final(connection).orderly(),
        r is Err ==> *final(context) == *old(context),
{
    let (parsed, message) = match parse_message(connection.read_buf.readable()) {
        Ok(request) => request,
        Err(err) => match err {
            Error::InputTooShort(_) => {
                return Ok(false);
            },
            _ => {
                return Err(TryOneRequestError::Protocol(err));
            },
        },
    };
    proof {
        lemma_answer_fits(old(context).data, message@);
    }
    let written = match do_request(context, message, connection.write_buf.writable()) {
        Ok(written) => written,
        Err(err) => {
            assert(connection.write_buf.contents() =~= old(connection).write_buf.contents());
            return Err(TryOneRequestError::DoRequest(err));
        },
    };
    let ghost answer = spec_do_request(old(context).data, message@);
    proof {
        answer.lemma_encoded_len();
        lemma_u32_be_len(answer.encoded_len() as u32);
        assert(connection.write_buf.contents().len() == BUF_LEN);
    }
    connection.write_buf.update_write_head(written);
    connection.read_buf.update_read_head(parsed);
    connection.state = State::SendResponse;
    connection.history = Ghost(
        connection.history@.run(
            Exchange { request: message@, before: *old(context), answer },
        ),
    );
    proof {
        let was = old(connection).history@;
        let now = connection.history@;
        let pending = old(connection).read_buf.pending();
        assert(connection.write_buf.pending() =~= frame(answer.encoding()));
        assert(connection.read_buf.pending() =~= pending.skip(parsed as int));
        if old(connection).orderly() {
            assert(old(connection).write_buf.pending() =~= Seq::<u8>::empty());
            lemma_served_keeps_orderly(
                *old(context),
                was,
                pending,
                *context,
                *connection,
                Ok(true),
            );
        }
    }
    Ok(true)
}

/// What a handler returns for what `try_one_request` returned: after an
/// answer was made, write; while the next request is not there in full,
/// read; after a refusal, close.
pub open spec fn step_of(r: Result<bool, TryOneRequestError>) -> Result<
    NextStep,
    TryFillBufferError,
> {
    match r {
        Ok(true) => Ok(NextStep::Write),
        Ok(false) => Ok(NextStep::Read),
        Err(e) => Err(TryFillBufferError::TryOneRequest(e)),
    }
}

/// While no whole message is pending, there is room to read more.
pub proof fn lemma_room_to_read(pending: Seq<u8>)
    requires
        spec_parse_message(pending) is Err,
        spec_parse_message(pending)->Err_0 is InputTooShort,
    ensures
        pending.len() < BUF_LEN,
{
}

impl Connection {
    /// The part of the read buffer to read into: the pending bytes are
    /// moved to the start of the buffer, and what lies behind them is
    /// handed out. It is never empty.
    pub fn read_target(&mut self) -> (w: &mut [u8])
        requires
            old(self).wf(),
            old(self).drained(),
            old(self).state == State::ReadRequest,
        ensures
            w@.len() > 0,
            w@.len() == BUF_LEN - old(self).read_buf.pending().len(),
            final(self).fd == old(self).fd,
            final(self).state == old(self).state,
            final(self).write_buf == old(self).write_buf,
            final(self).history == old(self).history,
            final(self).read_buf.read_pos() == 0,
            final(self).read_buf.write_pos() == old(self).read_buf.pending().len(),
            final(self).read_buf.contents() == old(self).read_buf.pending() + final(w)@,
            final(self).read_buf.pending() == old(self).read_buf.pending(),
            final(w)@.len() == w@.len() ==> final(self).wf(),
    {
        proof {
            lemma_room_to_read(self.read_buf.pending());
        }
        self.read_buf.remove_processed();
        let ghost moved = self.read_buf.contents();
        let w = self.read_buf.writable();
        proof {
            let n = old(self).read_buf.pending().len() as int;
            assert(moved.subrange(0, n) =~= old(self).read_buf.pending());
            let pending = old(self).read_buf.pending();
            assert((pending + final(w)@).subrange(0, n) =~= pending);
        }
        w
    }

    /// The bytes behind the write head of the read buffer that a read of
    /// `n` bytes has put there.
    pub open spec fn incoming(&self, n: int) -> Seq<u8> {
        self.read_buf.contents().subrange(
            self.read_buf.write_pos(),
            self.read_buf.write_pos() + n,
        )
    }
}

/// What `try_fill_buffer` makes of a keyspace and a connection, for each
/// outcome of a read.
pub open spec fn filled(
    before: Context,
    was: Connection,
    outcome: ReadOutcome,
    after: Context,
    connection: Connection,
    r: Result<NextStep, TryFillBufferError>,
) -> bool {
    match outcome {
        ReadOutcome::Failed(e) => {
            &&& r == Err::<NextStep, TryFillBufferError>(TryFillBufferError::IO(e))
            &&& connection == was
            &&& after == before
        },
        ReadOutcome::WouldBlock => {
            &&& r == Ok::<NextStep, TryFillBufferError>(NextStep::Wait)
            &&& connection == was
            &&& after == before
        },
        ReadOutcome::EndOfStream => {
            &&& r == Err::<NextStep, TryFillBufferError>(TryFillBufferError::EndOfStream)
            &&& connection == was
            &&& after == before
        },
        ReadOutcome::Data(n) => if n == 0 {
            &&& r == Err::<NextStep, TryFillBufferError>(TryFillBufferError::EndOfStream)
            &&& connection == was
            &&& after == before
        } else {
            exists|inner: Result<bool, TryOneRequestError>|
                {
                    &&& r == step_of(inner)
                    &&& #[trigger] served(
                        before,
                        was.history@.receive(was.incoming(n as int)),
                        was.read_buf.pending() + was.incoming(n as int),
                        after,
                        connection,
                        inner,
                    )
                }
        },
    }
}

/// What `try_flush_buffer` makes of a keyspace and a connection, for each
/// outcome of a write.
pub open spec fn flushed(
    before: Context,
    was: Connection,
    outcome: WriteOutcome,
    after: Context,
    connection: Connection,
    r: Result<NextStep, TryFillBufferError>,
) -> bool {
    match outcome {
        WriteOutcome::Failed(e) => {
            &&& r == Err::<NextStep, TryFillBufferError>(TryFillBufferError::IO(e))
            &&& connection == was
            &&& after == before
        },
        WriteOutcome::WouldBlock => {
            &&& r == Ok::<NextStep, TryFillBufferError>(NextStep::Wait)
            &&& connection == was
            &&& after == before
        },
        WriteOutcome::Written(n) => if n < was.write_buf.pending().len() {
            &&& r == Ok::<NextStep, TryFillBufferError>(NextStep::Write)
            &&& after == before
            &&& connection.state == State::SendResponse
            &&& connection.read_buf == was.read_buf
            &&& connection.write_buf.pending() == was.write_buf.pending().skip(n as int)
            &&& connection.history@ == was.history@.send(
                was.write_buf.pending().subrange(0, n as int),
            )
        } else {
            exists|inner: Result<bool, TryOneRequestError>|
                {
                    &&& r == step_of(inner)
                    &&& #[trigger] served(
                        before,
                        was.history@.send(was.write_buf.pending()),
                        was.read_buf.pending(),
                        after,
                        connection,
                        inner,
                    )
                }
        },
    }
}

/// Takes the outcome of a read on a connection that waits for a request,
/// and says what to do next.
///
/// A failed read and the end of the stream, which a read of no bytes
/// stands for too, are errors: the connection is to be closed. A read
/// that would block changes nothing. Bytes that came in are counted as
/// pending, and one request is taken from them as `try_one_request` does.
pub fn try_fill_buffer(
    context: &mut Context,
    connection: &mut Connection,
    outcome: ReadOutcome,
) -> (r: Result<NextStep, TryFillBufferError>)
    requires
        old(context).wf(),
        old(connection).wf(),
        old(connection).state == State::ReadRequest,
        outcome matches ReadOutcome::Data(n) ==> n <= old(connection).read_buf.room(),
    ensures
        final(context).wf(),
        final(connection).wf(),
        final(connection).fd == old(connection).fd,
        filled(*old(context), *old(connection), outcome, *final(context), *final(connection), r),
        r is Ok && old(connection).drained() ==> final(connection).drained(),
        r is Ok && old(connection).orderly() ==> final(connection).orderly(),
        r is Err ==> *final(context) == *old(context),
{
    match outcome {
        ReadOutcome::Failed(e) => Err(TryFillBufferError::IO(e)),
        ReadOutcome::WouldBlock => Ok(NextStep::Wait),
        ReadOutcome::EndOfStream => Err(TryFillBufferError::EndOfStream),
        ReadOutcome::Data(n) => {
            if n == 0 {
                return Err(TryFillBufferError::EndOfStream);
            }
            let ghost bytes = connection.incoming(n as int);
            let ghost pending = connection.read_buf.pending();
            connection.read_buf.update_write_head(n);
            connection.history = Ghost(connection.history@.receive(bytes));
            proof {
                assert(connection.read_buf.pending() =~= pending + bytes);
                if old(connection).orderly() {
                    assert(old(connection).write_buf.pending() =~= Seq::<u8>::empty());
                    lemma_receive_keeps_orderly(old(connection).history@, pending, bytes);
                }
            }
            let inner = try_one_request(context, connection);
            assert(served(
                *old(context),
                old(connection).history@.receive(bytes),
                pending + bytes,
                *context,
                *connection,
                inner,
            ));
            match inner {
                Ok(true) => Ok(NextStep::Write),
                Ok(false) => Ok(NextStep::Read),
                Err(e) => Err(TryFillBufferError::TryOneRequest(e)),
            }
        },
    }
}

/// Takes the outcome of a write on a connection that has an answer to
/// send, and says what to do next.
///
/// A failed write is an error: the connection is to be closed. A write
/// that would block changes nothing. Bytes that were sent are no longer
/// pending. Once none is pending, the write buffer is reset, the
/// connection waits for a request again, and one request is taken from
/// the bytes that are pending in the read buffer as `try_one_request`
/// does.
pub fn try_flush_buffer(
    context: &mut Context,
    connection: &mut Connection,
    outcome: WriteOutcome,
) -> (r: Result<NextStep, TryFillBufferError>)
    requires
        old(context).wf(),
        old(connection).wf(),
        old(connection).state == State::SendResponse,
        outcome matches WriteOutcome::Written(n) ==> n <= old(connection).write_buf.pending().len(),
    ensures
        final(context).wf(),
        final(connection).wf(),
        final(connection).fd == old(connection).fd,
        flushed(*old(context), *old(connection), outcome, *final(context), *final(connection), r),
        r is Ok ==> final(connection).drained(),
        r is Ok && old(connection).orderly() ==> final(connection).orderly(),
        r is Err ==> *final(context) == *old(context),
{
    match outcome {
        WriteOutcome::Failed(e) => Err(TryFillBufferError::IO(e)),
        WriteOutcome::WouldBlock => Ok(NextStep::Wait),
        WriteOutcome::Written(n) => {
            let ghost pending = connection.write_buf.pending();
            connection.write_buf.update_read_head(n);
            connection.history = Ghost(connection.history@.send(pending.subrange(0, n as int)));
            proof {
                let was = old(connection).history@;
                assert(connection.write_buf.pending() =~= pending.skip(n as int));
                assert(connection.history@.requests() =~= was.requests());
                assert(connection.history@.answers() =~= was.answers());
                assert(connection.history@.sent + pending.skip(n as int) =~= was.sent + pending);
            }
            if !connection.write_buf.is_empty() {
                return Ok(NextStep::Write);
            }
            connection.state = State::ReadRequest;
            connection.write_buf.reset();
            proof {
                assert(pending.subrange(0, n as int) =~= pending);
                assert(connection.write_buf.pending() =~= Seq::<u8>::empty());
                assert(pending.skip(n as int) =~= Seq::<u8>::empty());
            }
            let inner = try_one_request(context, connection);
            match inner {
                Ok(true) => Ok(NextStep::Write),
                Ok(false) => Ok(NextStep::Read),
                Err(e) => Err(TryFillBufferError::TryOneRequest(e)),
            }
        },
    }
}

/// What to do with a connection after a handler returned: keep it, or
/// close and forget it after an error.
pub fn action_after(r: &Result<NextStep, TryFillBufferError>) -> (action: ConnectionAction)
    ensures
        action == if r is Ok {
            ConnectionAction::DoNothing
        } else {
            ConnectionAction::Delete
        },
{
    match r {
        Ok(_) => ConnectionAction::DoNothing,
        Err(_) => ConnectionAction::Delete,
    }
}

/// The bodies of the whole messages at the front of `stream`, in order,
/// and the bytes behind the last of them.
pub open spec fn requests_in(stream: Seq<u8>) -> (Seq<Seq<u8>>, Seq<u8>)
    decreases stream.len(),
{
    match spec_parse_message(stream) {
        Ok((read, body)) => if 0 < read <= stream.len() {
            let (more, rest) = requests_in(stream.skip(read as int));
            (seq![body] + more, rest)
        } else {
            (Seq::empty(), stream)
        },
        Err(_) => (Seq::empty(), stream),
    }
}

/// The first request of a stream is its first message, and the other
/// requests are those of what follows that message.
pub proof fn lemma_requests_in_first(stream: Seq<u8>)
    requires
        spec_parse_message(stream) is Ok,
    ensures
        requests_in(stream).0.len() > 0,
        requests_in(stream).0[0] == spec_parse_message(stream)->Ok_0.1,
        requests_in(stream.skip(spec_parse_message(stream)->Ok_0.0 as int)) == (
            requests_in(stream).0.skip(1),
            requests_in(stream).1,
        ),
{
    let (read, body) = spec_parse_message(stream)->Ok_0;
    let (more, rest) = requests_in(stream.skip(read as int));
    assert((seq![body] + more).skip(1) =~= more);
}

/// A message at the front of a stream is the same message whatever
/// follows it.
pub proof fn lemma_parse_message_prefix(first: Seq<u8>, second: Seq<u8>)
    requires
        spec_parse_message(first) is Ok,
    ensures
        spec_parse_message(first + second) == spec_parse_message(first),
{
    let all = first + second;
    assert(all.subrange(0, 4) =~= first.subrange(0, 4));
    let read = spec_parse_message(first)->Ok_0.0;
    assert(all.subrange(4, read as int) =~= first.subrange(4, read as int));
}

/// The requests that a stream of bytes holds do not depend on how the
/// stream comes in: the requests of two chunks one after the other are
/// those of the first chunk, followed by those of what the first chunk
/// left over together with the second chunk.
pub proof fn lemma_requests_in_split(first: Seq<u8>, second: Seq<u8>)
    ensures
        requests_in(first + second) == (
            requests_in(first).0 + requests_in(requests_in(first).1 + second).0,
            requests_in(requests_in(first).1 + second).1,
        ),
    decreases first.len(),
{
    match spec_parse_message(first) {
        Ok((read, body)) => {
            lemma_parse_message_prefix(first, second);
            let tail = first.skip(read as int);
            assert((first + second).skip(read as int) =~= tail + second);
            lemma_requests_in_split(tail, second);
            let (more, rest) = requests_in(tail);
            assert(seq![body] + (more + requests_in(rest + second).0) =~= (seq![body] + more)
                + requests_in(rest + second).0);
        },
        Err(_) => {
            assert(Seq::<Seq<u8>>::empty() + requests_in(first + second).0 =~= requests_in(
                first + second,
            ).0);
        },
    }
}

/// A request that is taken as `try_one_request` takes it leaves the
/// history fitting the connection.
pub proof fn lemma_served_keeps_orderly(
    before: Context,
    was: History,
    pending: Seq<u8>,
    after: Context,
    connection: Connection,
    r: Result<bool, TryOneRequestError>,
)
    requires
        was.orderly(pending, Seq::empty()),
        served(before, was, pending, after, connection, r),
        r is Ok,
        connection.wf(),
    ensures
        connection.orderly(),
{
    let now = connection.history@;
    match spec_parse_message(pending) {
        Ok((read, body)) => {
            let answer = spec_do_request(before.data, body);
            lemma_requests_in_first(pending);
            assert(now.requests() =~= was.requests().push(body));
            assert(was.requests() + requests_in(pending).0 =~= now.requests() + requests_in(
                pending.skip(read as int),
            ).0);
            assert(now.answers() =~= was.answers().push(answer));
            assert(now.answers().drop_last() =~= was.answers());
            assert(was.sent + Seq::<u8>::empty() =~= was.sent);
            assert(now.sent + frame(answer.encoding()) =~= frames(now.answers()));
            assert forall|i: int| 0 <= i < now.exchanges.len() implies spec_do_request(
                (#[trigger] now.exchanges[i]).before.data,
                now.exchanges[i].request,
            ) == now.exchanges[i].answer by {
                if i < was.exchanges.len() {
                    assert(now.exchanges[i] == was.exchanges[i]);
                }
            }
        },
        Err(_) => {
            assert(connection.write_buf.pending() =~= Seq::<u8>::empty());
        },
    }
}

/// Bytes that come in leave the history fitting, with the bytes counted
/// as pending.
pub proof fn lemma_receive_keeps_orderly(was: History, pending: Seq<u8>, bytes: Seq<u8>)
    requires
        was.orderly(pending, Seq::empty()),
    ensures
        was.receive(bytes).orderly(pending + bytes, Seq::empty()),
{
    let now = was.receive(bytes);
    lemma_requests_in_split(was.received, bytes);
    lemma_requests_in_split(pending, bytes);
    assert(was.requests() + (requests_in(pending).0 + requests_in(
        requests_in(pending).1 + bytes,
    ).0) =~= (was.requests() + requests_in(pending).0) + requests_in(
        requests_in(pending).1 + bytes,
    ).0);
    assert(now.requests() =~= was.requests());
    assert(now.answers() =~= was.answers());
}

/// What came in or went out on a connection.
pub enum Event {
    /// A read, with its outcome.
    Read(ReadOutcome),
    /// A write, with its outcome.
    Write(WriteOutcome),
}

/// One call of `try_fill_buffer` or `try_flush_buffer` that went well:
/// the keyspace and the connection before it, what it was given, and the
/// keyspace and the connection after it.
pub struct Step {
    pub before: Context,
    pub was: Connection,
    pub event: Event,
    pub after: Context,
    pub connection: Connection,
}

impl Step {
    /// The call was allowed, and what it left is what the handler leaves
    /// where it returns no error.
    #[verifier::opaque]
    pub open spec fn taken(self) -> bool {
        &&& self.was.wf()
        &&& self.connection.wf()
        &&& match self.event {
            Event::Read(outcome) => {
                &&& self.was.state == State::ReadRequest
                &&& outcome matches ReadOutcome::Data(n) ==> n <= self.was.read_buf.room()
                &&& exists|r: Result<NextStep, TryFillBufferError>|
                    r is Ok && #[trigger] filled(
                        self.before,
                        self.was,
                        outcome,
                        self.after,
                        self.connection,
                        r,
                    )
            },
            Event::Write(outcome) => {
                &&& self.was.state == State::SendResponse
                &&& outcome matches WriteOutcome::Written(n) ==> n
                    <= self.was.write_buf.pending().len()
                &&& exists|r: Result<NextStep, TryFillBufferError>|
                    r is Ok && #[trigger] flushed(
                        self.before,
                        self.was,
                        outcome,
                        self.after,
                        self.connection,
                        r,
                    )
            },
        }
    }

    /// The bytes that the call took in.
    pub open spec fn incoming(self) -> Seq<u8> {
        match self.event {
            Event::Read(ReadOutcome::Data(n)) => self.was.incoming(n as int),
            _ => Seq::empty(),
        }
    }

    /// The bytes that the call saw go out.
    pub open spec fn outgoing(self) -> Seq<u8> {
        match self.event {
            Event::Write(WriteOutcome::Written(n)) => self.was.write_buf.pending().subrange(
                0,
                n as int,
            ),
            _ => Seq::empty(),
        }
    }
}

/// Whether two connections hold the same traffic: the same state, the
/// same bytes pending in either direction, and the same history. Between
/// two calls a connection may change, as it does when its read buffer is
/// made ready for a read, but not in these.
pub open spec fn same_traffic(a: Connection, b: Connection) -> bool {
    &&& a.state == b.state
    &&& a.read_buf.pending() == b.read_buf.pending()
    &&& a.write_buf.pending() == b.write_buf.pending()
    &&& a.history@ == b.history@
}

/// All the bytes that the calls took in, in order.
pub open spec fn all_incoming(steps: Seq<Step>) -> Seq<u8>
    decreases steps.len(),
{
    if steps.len() == 0 {
        Seq::empty()
    } else {
        all_incoming(steps.drop_last()) + steps.last().incoming()
    }
}

/// All the bytes that the calls saw go out, in order.
pub open spec fn all_outgoing(steps: Seq<Step>) -> Seq<u8>
    decreases steps.len(),
{
    if steps.len() == 0 {
        Seq::empty()
    } else {
        all_outgoing(steps.drop_last()) + steps.last().outgoing()
    }
}

/// A history that fits a connection fits any that holds the same traffic.
pub proof fn lemma_same_traffic_is_orderly(a: Connection, b: Connection)
    requires
        same_traffic(a, b),
        a.orderly(),
    ensures
        b.orderly(),
{
}

/// One call that went well keeps the history fitting, and adds to it the
/// bytes that came in or went out.
pub proof fn lemma_step_keeps_orderly(step: Step)
    requires
        step.taken(),
        step.was.orderly(),
    ensures
        step.connection.wf(),
        step.connection.orderly(),
        step.connection.history@.received == step.was.history@.received + step.incoming(),
        step.connection.history@.sent == step.was.history@.sent + step.outgoing(),
{
    reveal(Step::taken);
    let was = step.was;
    let now = step.connection;
    match step.event {
        Event::Read(outcome) => {
            let r = choose|r: Result<NextStep, TryFillBufferError>|
                r is Ok && #[trigger] filled(step.before, was, outcome, step.after, now, r);
            assert(was.write_buf.pending() =~= Seq::<u8>::empty());
            match outcome {
                ReadOutcome::Data(n) => {
                    let bytes = was.incoming(n as int);
                    let inner = choose|inner: Result<bool, TryOneRequestError>|
                        r == step_of(inner) && #[trigger] served(
                            step.before,
                            was.history@.receive(bytes),
                            was.read_buf.pending() + bytes,
                            step.after,
                            now,
                            inner,
                        );
                    lemma_receive_keeps_orderly(was.history@, was.read_buf.pending(), bytes);
                    lemma_served_keeps_orderly(
                        step.before,
                        was.history@.receive(bytes),
                        was.read_buf.pending() + bytes,
                        step.after,
                        now,
                        inner,
                    );
                },
                _ => {},
            }
            assert(step.outgoing() =~= Seq::<u8>::empty());
            assert(was.history@.sent + Seq::<u8>::empty() =~= was.history@.sent);
            assert(was.history@.received + Seq::<u8>::empty() =~= was.history@.received);
        },
        Event::Write(outcome) => {
            let r = choose|r: Result<NextStep, TryFillBufferError>|
                r is Ok && #[trigger] flushed(step.before, was, outcome, step.after, now, r);
            let pending = was.write_buf.pending();
            match outcome {
                WriteOutcome::Written(n) => {
                    if n < pending.len() {
                        let sent = pending.subrange(0, n as int);
                        assert(was.history@.send(sent).requests() =~= was.history@.requests());
                        assert(was.history@.send(sent).answers() =~= was.history@.answers());
                        assert(was.history@.sent + sent + pending.skip(n as int)
                            =~= was.history@.sent + pending);
                    } else {
                        let inner = choose|inner: Result<bool, TryOneRequestError>|
                            r == step_of(inner) && #[trigger] served(
                                step.before,
                                was.history@.send(pending),
                                was.read_buf.pending(),
                                step.after,
                                now,
                                inner,
                            );
                        assert(pending.subrange(0, n as int) =~= pending);
                        assert(was.history@.send(pending).requests() =~= was.history@.requests());
                        assert(was.history@.send(pending).answers() =~= was.history@.answers());
                        assert(was.history@.sent + pending + Seq::<u8>::empty()
                            =~= was.history@.sent + pending);
                        lemma_served_keeps_orderly(
                            step.before,
                            was.history@.send(pending),
                            was.read_buf.pending(),
                            step.after,
                            now,
                            inner,
                        );
                    }
                },
                _ => {},
            }
            assert(step.incoming() =~= Seq::<u8>::empty());
            assert(was.history@.sent + Seq::<u8>::empty() =~= was.history@.sent);
            assert(was.history@.received + Seq::<u8>::empty() =~= was.history@.received);
        },
    }
}

/// Any number of calls that went well, one after the other on one
/// connection, keep the history fitting; what came in is the bytes of all
/// the reads in order, however they were cut, and what went out is the
/// bytes of all the writes.
pub proof fn lemma_steps_keep_orderly(steps: Seq<Step>)
    requires
        steps.len() > 0,
        steps[0].was.orderly(),
        forall|i: int| 0 <= i < steps.len() ==> (#[trigger] steps[i]).taken(),
        forall|i: int, j: int|
            0 <= i && j == i + 1 && j < steps.len() ==> same_traffic(
                (#[trigger] steps[i]).connection,
                (#[trigger] steps[j]).was,
            ),
    ensures
        steps.last().connection.wf(),
        steps.last().connection.orderly(),
        steps.last().connection.history@.received == steps[0].was.history@.received
            + all_incoming(steps),
        steps.last().connection.history@.sent == steps[0].was.history@.sent + all_outgoing(steps),
    decreases steps.len(),
{
    let n = steps.len() as int;
    let last = steps.last();
    if n == 1 {
        lemma_step_keeps_orderly(last);
        assert(steps.drop_last().len() == 0);
        assert(all_incoming(steps.drop_last()) =~= Seq::<u8>::empty());
        assert(all_outgoing(steps.drop_last()) =~= Seq::<u8>::empty());
        assert(all_incoming(steps) =~= last.incoming());
        assert(all_outgoing(steps) =~= last.outgoing());
    } else {
        let front = steps.drop_last();
        assert(front[0] == steps[0]);
        assert forall|i: int, j: int| 0 <= i && j == i + 1 && j < front.len() implies same_traffic(
            (#[trigger] front[i]).connection,
            (#[trigger] front[j]).was,
        ) by {
            assert(same_traffic(steps[i].connection, steps[j].was));
        }
        lemma_steps_keep_orderly(front);
        assert(front.last() == steps[n - 2]);
        assert(same_traffic(steps[n - 2].connection, steps[n - 1].was));
        assert(last.was.orderly()) by {
            lemma_same_traffic_is_orderly(steps[n - 2].connection, last.was);
        }
        lemma_step_keeps_orderly(last);
        let start = steps[0].was.history@;
        assert(start.received + all_incoming(front) + last.incoming() =~= start.received + (
        all_incoming(front) + last.incoming()));
        assert(start.sent + all_outgoing(front) + last.outgoing() =~= start.sent + (all_outgoing(
            front,
        ) + last.outgoing()));
    }
}

/// A connection that is new, and then served by any number of calls that
/// went well until it waits for bytes again, has run every request in the
/// bytes that the reads took in, in the order in which it came and
/// however the bytes were cut, and the bytes that the writes saw go out
/// are the answers in that order, one message each.
pub proof fn lemma_requests_answered_in_order(steps: Seq<Step>)
    requires
        steps.len() > 0,
        steps[0].was.history@ == History::empty(),
        steps[0].was.orderly(),
        forall|i: int| 0 <= i < steps.len() ==> (#[trigger] steps[i]).taken(),
        forall|i: int, j: int|
            0 <= i && j == i + 1 && j < steps.len() ==> same_traffic(
                (#[trigger] steps[i]).connection,
                (#[trigger] steps[j]).was,
            ),
        steps.last().connection.state == State::ReadRequest,
        steps.last().connection.drained(),
    ensures
        steps.last().connection.history@.requests() == requests_in(all_incoming(steps)).0,
        steps.last().connection.history@.answers().len() == requests_in(
            all_incoming(steps),
        ).0.len(),
        all_outgoing(steps) == frames(steps.last().connection.history@.answers()),
{
    lemma_steps_keep_orderly(steps);
    lemma_all_answered(steps.last().connection);
    assert(Seq::<u8>::empty() + all_incoming(steps) =~= all_incoming(steps));
    assert(Seq::<u8>::empty() + all_outgoing(steps) =~= all_outgoing(steps));
}

/// Once a connection waits for bytes again, every request in the bytes
/// that came in was run, in the order in which it came, and the bytes
/// that went out are the answers in that order, one message each.
pub proof fn lemma_all_answered(connection: Connection)
    requires
        connection.wf(),
        connection.orderly(),
        connection.drained(),
        connection.state == State::ReadRequest,
    ensures
        connection.history@.requests() == requests_in(connection.history@.received).0,
        connection.history@.answers().len() == requests_in(connection.history@.received).0.len(),
        connection.history@.sent == frames(connection.history@.answers()),
{
    let history = connection.history@;
    assert(connection.write_buf.pending() =~= Seq::<u8>::empty());
    assert(history.sent + Seq::<u8>::empty() =~= history.sent);
    assert(history.requests() + Seq::<Seq<u8>>::empty() =~= history.requests());
}

} // verus!
