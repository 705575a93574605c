//! The wire codec: message framing, typed values, and a reader and a writer
//! over byte buffers.
//!
//! A message is a four-byte big-endian length followed by that many bytes of
//! body. A body is a sequence of typed values, each a tag byte followed by a
//! payload that depends on the tag.

use vstd::prelude::*;
use crate::bytes::{be_u32, be_u64, copy_into, overlay, read_u32, read_u64, u32_be, u64_be};
use crate::bytes::{lemma_be_u32_of_u32_be, lemma_be_u64_of_u64_be, lemma_u32_be_len};
use crate::bytes::{lemma_u64_be_len, write_u32, write_u64};

verus! {

/// Bytes taken by the length prefix of a message.
pub const HEADER_LEN: usize = 4;

/// The longest body a message may carry.
pub const MAX_MSG_LEN: usize = 4096;

/// The size of a buffer that holds any one message.
pub const BUF_LEN: usize = HEADER_LEN + MAX_MSG_LEN;

/// Bytes taken by the code of an error value.
pub const RESPONSE_CODE_LEN: usize = 4;

/// Bytes taken by the tag of a typed value.
pub const DATA_TYPE_LEN: usize = 1;

/// Bytes taken by the payload of an integer value.
pub const INTEGER_LEN: usize = 8;

/// Bytes taken by the length prefix of a string.
pub const STRING_LEN: usize = 4;

/// The tag of a typed value.
#[derive(Debug, Clone, Copy, PartialEq, Eq, Structural)]
pub enum DataType {
    Nil,
    Error,
    Str,
    Int,
    Arr,
}

impl DataType {
    /// The byte that announces a value of this type on the wire.
    pub open spec fn spec_tag(self) -> u8 {
        match self {
            DataType::Nil => 0,
            DataType::Error => 1,
            DataType::Str => 2,
            DataType::Int => 3,
            DataType::Arr => 4,
        }
    }

    /// The byte that announces a value of this type on the wire.
    #[verifier::when_used_as_spec(spec_tag)]
    pub fn tag(self) -> (t: u8)
        ensures
            t == self.spec_tag(),
    {
        match self {
            DataType::Nil => 0,
            DataType::Error => 1,
            DataType::Str => 2,
            DataType::Int => 3,
            DataType::Arr => 4,
        }
    }

    /// The type that a tag byte announces, if any.
    pub open spec fn spec_from_tag(tag: u8) -> Option<DataType> {
        if tag == 0 {
            Some(DataType::Nil)
        } else if tag == 1 {
            Some(DataType::Error)
        } else if tag == 2 {
            Some(DataType::Str)
        } else if tag == 3 {
            Some(DataType::Int)
        } else if tag == 4 {
            Some(DataType::Arr)
        } else {
            None
        }
    }

    /// The type that a tag byte announces, if any.
    #[verifier::when_used_as_spec(spec_from_tag)]
    pub fn from_tag(tag: u8) -> (t: Option<DataType>)
        ensures
            t == DataType::spec_from_tag(tag),
    {
        if tag == 0 {
            Some(DataType::Nil)
        } else if tag == 1 {
            Some(DataType::Error)
        } else if tag == 2 {
            Some(DataType::Str)
        } else if tag == 3 {
            Some(DataType::Int)
        } else if tag == 4 {
            Some(DataType::Arr)
        } else {
            None
        }
    }

    /// The lower-case name of the type.
    pub fn name(self) -> (s: &'static str)
        ensures
            s@ == match self {
                DataType::Nil => "nil"@,
                DataType::Error => "err"@,
                DataType::Str => "str"@,
                DataType::Int => "int"@,
                DataType::Arr => "arr"@,
            },
    {
        match self {
            DataType::Nil => "nil",
            DataType::Error => "err",
            DataType::Str => "str",
            DataType::Int => "int",
            DataType::Arr => "arr",
        }
    }
}

/// What can go wrong when bytes are decoded.
#[derive(Debug, Clone, Copy, PartialEq, Eq, Structural)]
pub enum Error {
    /// More bytes are needed; the payload is the number of bytes that were there.
    InputTooShort(usize),
    /// A message announces a body longer than `MAX_MSG_LEN`; the payload is the announced length.
    MessageTooLong(usize),
    /// A tag byte that announces no known type.
    InvalidDataType(u8),
    /// An error value carries a code that is not in use.
    InvalidResponseCode(u32),
    /// A value of one type was asked for and another was found.
    IncoherentDataType { got: DataType, want: DataType },
}

/// A typed value as it travels in a body.
pub enum Value {
    Nil,
    Error(u32, Seq<u8>),
    Str(Seq<u8>),
    Int(u64),
}

impl Value {
    /// Whether the value can be written: the lengths of its byte strings fit in 32 bits.
    pub open spec fn encodable(self) -> bool {
        match self {
            Value::Nil => true,
            Value::Error(_, message) => message.len() <= u32::MAX,
            Value::Str(s) => s.len() <= u32::MAX,
            Value::Int(_) => true,
        }
    }

    /// The bytes of the value on the wire: the tag, then the payload.
    pub open spec fn encoding(self) -> Seq<u8> {
        match self {
            Value::Nil => seq![DataType::Nil.spec_tag()],
            Value::Error(code, message) => seq![DataType::Error.spec_tag()] + u32_be(code) + u32_be(
                message.len() as u32,
            ) + message,
            Value::Str(s) => seq![DataType::Str.spec_tag()] + u32_be(s.len() as u32) + s,
            Value::Int(n) => seq![DataType::Int.spec_tag()] + u64_be(n),
        }
    }

    /// The number of bytes of the value on the wire.
    pub open spec fn encoded_len(self) -> nat {
        match self {
            Value::Nil => 1,
            Value::Error(_, message) => 9 + message.len(),
            Value::Str(s) => 5 + s.len(),
            Value::Int(_) => 9,
        }
    }

    /// `encoded_len` is the length of `encoding`.
    pub proof fn lemma_encoded_len(self)
        ensures
            self.encoding().len() == self.encoded_len(),
    {
        match self {
            Value::Nil => {},
            Value::Error(code, message) => {
                lemma_u32_be_len(code);
                lemma_u32_be_len(message.len() as u32);
            },
            Value::Str(s) => {
                lemma_u32_be_len(s.len() as u32);
            },
            Value::Int(n) => {
                lemma_u64_be_len(n);
            },
        }
    }
}

/// The bytes of a sequence of values, one after the other.
pub open spec fn encode_values(values: Seq<Value>) -> Seq<u8>
    decreases values.len(),
{
    if values.len() == 0 {
        Seq::empty()
    } else {
        values[0].encoding() + encode_values(values.skip(1))
    }
}

/// A message: the length of the body in four bytes, then the body.
pub open spec fn frame(body: Seq<u8>) -> Seq<u8> {
    u32_be(body.len() as u32) + body
}

/// What `parse_message` returns on `buf`.
pub open spec fn spec_parse_message(buf: Seq<u8>) -> Result<(usize, Seq<u8>), Error> {
    if buf.len() < HEADER_LEN {
        Err(Error::InputTooShort(buf.len() as usize))
    } else {
        let length = be_u32(buf.subrange(0, 4)) as int;
        if length > MAX_MSG_LEN {
            Err(Error::MessageTooLong(length as usize))
        } else if buf.len() < HEADER_LEN + length {
            Err(Error::InputTooShort(buf.len() as usize))
        } else {
            Ok(((HEADER_LEN + length) as usize, buf.subrange(4, HEADER_LEN + length)))
        }
    }
}

/// The view of a parsed message: the bytes consumed and the body.
pub open spec fn message_view(r: Result<(usize, &[u8]), Error>) -> Result<(usize, Seq<u8>), Error> {
    match r {
        Ok((read, body)) => Ok((read, body@)),
        Err(e) => Err(e),
    }
}

/// Takes one message from the front of `buf`.
///
/// Returns the number of bytes that the message takes and its body. Fails with
/// `InputTooShort` while the message is not there in full, and with
/// `MessageTooLong` when the announced length is over `MAX_MSG_LEN`.
pub fn parse_message(buf: &[u8]) -> (r: Result<(usize, &[u8]), Error>)
    ensures
        message_view(r) == spec_parse_message(buf@),
{
    if buf.len() < HEADER_LEN {
        return Err(Error::InputTooShort(buf.len()));
    }
    let length = read_u32(buf, 0) as usize;
    if length > MAX_MSG_LEN {
        return Err(Error::MessageTooLong(length));
    }
    if buf.len() < HEADER_LEN + length {
        return Err(Error::InputTooShort(buf.len()));
    }
    let read = HEADER_LEN + length;
    let message = vstd::slice::slice_subrange(buf, HEADER_LEN, read);
    Ok((read, message))
}

/// A message that was framed parses to its body, and the bytes consumed are
/// those of the frame, whatever follows it in the buffer.
pub proof fn lemma_parse_frame(body: Seq<u8>, rest: Seq<u8>)
    requires
        body.len() <= MAX_MSG_LEN,
    ensures
        frame(body).len() == HEADER_LEN + body.len(),
        spec_parse_message(frame(body) + rest) == Ok::<(usize, Seq<u8>), Error>(
            (frame(body).len() as usize, body),
        ),
{
    let buf = frame(body) + rest;
    lemma_be_u32_of_u32_be(body.len() as u32, Seq::empty());
    assert(buf.subrange(0, 4) =~= u32_be(body.len() as u32) + Seq::<u8>::empty());
    assert(buf.subrange(4, 4 + body.len() as int) =~= body);
}

/// What `Reader::read_data_type` returns at `pos` of `input`, and the position after it.
pub open spec fn spec_read_data_type(input: Seq<u8>, pos: int) -> (Result<DataType, Error>, int) {
    if pos >= input.len() {
        (Err(Error::InputTooShort(input.len() as usize)), pos)
    } else {
        match DataType::spec_from_tag(input[pos]) {
            Some(t) => (Ok(t), pos + 1),
            None => (Err(Error::InvalidDataType(input[pos])), pos),
        }
    }
}

/// A big-endian 32-bit integer at `pos` of `input`, and the position after it.
pub open spec fn spec_read_u32(input: Seq<u8>, pos: int) -> (Result<u32, Error>, int) {
    if input.len() - pos < 4 {
        (Err(Error::InputTooShort((input.len() - pos) as usize)), pos)
    } else {
        (Ok(be_u32(input.subrange(pos, pos + 4))), pos + 4)
    }
}

/// A big-endian 64-bit integer at `pos` of `input`, and the position after it.
pub open spec fn spec_read_u64(input: Seq<u8>, pos: int) -> (Result<u64, Error>, int) {
    if input.len() - pos < 8 {
        (Err(Error::InputTooShort((input.len() - pos) as usize)), pos)
    } else {
        (Ok(be_u64(input.subrange(pos, pos + 8))), pos + 8)
    }
}

/// The `len` bytes at `pos` of `input`, and the position after them.
pub open spec fn spec_read_bytes(input: Seq<u8>, pos: int, len: int) -> (
    Result<Seq<u8>, Error>,
    int,
) {
    if input.len() - pos < len {
        (Err(Error::InputTooShort((input.len() - pos) as usize)), pos)
    } else {
        (Ok(input.subrange(pos, pos + len)), pos + len)
    }
}

/// What `Reader::read_int` returns at `pos` of `input`, and the position after it.
pub open spec fn spec_read_int(input: Seq<u8>, pos: int) -> (Result<u64, Error>, int) {
    match spec_read_data_type(input, pos) {
        (Err(e), p) => (Err(e), p),
        (Ok(got), p) => if got != DataType::Int {
            (Err(Error::IncoherentDataType { got, want: DataType::Int }), p)
        } else {
            spec_read_u64(input, p)
        },
    }
}

/// What `Reader::read_err` returns at `pos` of `input`, and the position after it.
pub open spec fn spec_read_err(input: Seq<u8>, pos: int) -> (Result<(u32, Seq<u8>), Error>, int) {
    match spec_read_u32(input, pos) {
        (Err(e), p) => (Err(e), p),
        (Ok(code), p) => match spec_read_u32(input, p) {
            (Err(e), q) => (Err(e), q),
            (Ok(len), q) => match spec_read_bytes(input, q, len as int) {
                (Err(e), r) => (Err(e), r),
                (Ok(message), r) => (Ok((code, message)), r),
            },
        },
    }
}

/// What `Reader::read_string` returns at `pos` of `input`, and the position after it.
pub open spec fn spec_read_string(input: Seq<u8>, pos: int) -> (Result<Seq<u8>, Error>, int) {
    match spec_read_data_type(input, pos) {
        (Err(e), p) => (Err(e), p),
        (Ok(got), p) => if got != DataType::Str {
            (Err(Error::IncoherentDataType { got, want: DataType::Str }), p)
        } else {
            match spec_read_u32(input, p) {
                (Err(e), q) => (Err(e), q),
                (Ok(len), q) => spec_read_bytes(input, q, len as int),
            }
        },
    }
}

/// What `Reader::read_data_type_err` returns at `pos` of `input`, and the position after it.
pub open spec fn spec_read_data_type_err(input: Seq<u8>, pos: int) -> (
    Result<(u32, Seq<u8>), Error>,
    int,
) {
    match spec_read_data_type(input, pos) {
        (Err(e), p) => (Err(e), p),
        (Ok(got), p) => if got != DataType::Error {
            (Err(Error::IncoherentDataType { got, want: DataType::Error }), p)
        } else {
            spec_read_err(input, p)
        },
    }
}

/// The view of a byte string that was read, or the error.
pub open spec fn bytes_view(r: Result<&[u8], Error>) -> Result<Seq<u8>, Error> {
    match r {
        Ok(s) => Ok(s@),
        Err(e) => Err(e),
    }
}

/// The view of an error value that was read, or the error.
pub open spec fn err_view(r: Result<(u32, &[u8]), Error>) -> Result<(u32, Seq<u8>), Error> {
    match r {
        Ok((code, message)) => Ok((code, message@)),
        Err(e) => Err(e),
    }
}

/// Reads typed values from a body, front to back.
pub struct Reader<'a> {
    buf: &'a [u8],
    pos: usize,
}

impl<'a> Reader<'a> {
    /// The bytes that the reader was made over.
    pub closed spec fn input(&self) -> Seq<u8> {
        self.buf@
    }

    /// The number of bytes read so far.
    pub closed spec fn position(&self) -> int {
        self.pos as int
    }

    /// The position lies within the input.
    pub open spec fn wf(&self) -> bool {
        0 <= self.position() <= self.input().len()
    }

    /// The bytes not read yet.
    pub open spec fn rest(&self) -> Seq<u8> {
        self.input().skip(self.position())
    }

    pub fn new(buf: &'a [u8]) -> (r: Self)
        ensures
            r.wf(),
            r.input() == buf@,
            r.position() == 0,
    {
        Self { buf, pos: 0 }
    }

    /// Whether any byte is left to read.
    pub fn has_more(&self) -> (more: bool)
        requires
            self.wf(),
        ensures
            more == (self.rest().len() > 0),
    {
        self.pos < self.buf.len()
    }

    /// The bytes not read yet.
    pub fn remaining(self) -> (rest: &'a [u8])
        requires
            self.wf(),
        ensures
            rest@ == self.rest(),
    {
        vstd::slice::slice_subrange(self.buf, self.pos, self.buf.len())
    }

    /// A copy of the bytes not read yet.
    pub fn clone_remaining(&self) -> (rest: Vec<u8>)
        requires
            self.wf(),
        ensures
            rest@ == self.rest(),
    {
        let mut res = Vec::new();
        res.extend_from_slice(vstd::slice::slice_subrange(self.buf, self.pos, self.buf.len()));
        res
    }

    fn read_u32(&mut self) -> (r: Result<u32, Error>)
        requires
            old(self).wf(),
        ensures
            final(self).wf(),
            final(self).input() == old(self).input(),
            (r, final(self).position()) == spec_read_u32(old(self).input(), old(self).position()),
    {
        let left = self.buf.len() - self.pos;
        if left < 4 {
            return Err(Error::InputTooShort(left));
        }
        let result = read_u32(self.buf, self.pos);
        self.pos += 4;
        Ok(result)
    }

    fn read_u64(&mut self) -> (r: Result<u64, Error>)
        requires
            old(self).wf(),
        ensures
            final(self).wf(),
            final(self).input() == old(self).input(),
            (r, final(self).position()) == spec_read_u64(old(self).input(), old(self).position()),
    {
        let left = self.buf.len() - self.pos;
        if left < 8 {
            return Err(Error::InputTooShort(left));
        }
        let result = read_u64(self.buf, self.pos);
        self.pos += 8;
        Ok(result)
    }

    fn read_bytes(&mut self, len: usize) -> (r: Result<&'a [u8], Error>)
        requires
            old(self).wf(),
        ensures
            final(self).wf(),
            final(self).input() == old(self).input(),
            (bytes_view(r), final(self).position()) == spec_read_bytes(
                old(self).input(),
                old(self).position(),
                len as int,
            ),
    {
        let left = self.buf.len() - self.pos;
        if left < len {
            return Err(Error::InputTooShort(left));
        }
        let result = vstd::slice::slice_subrange(self.buf, self.pos, self.pos + len);
        self.pos += len;
        Ok(result)
    }

    /// Reads a tag byte.
    ///
    /// Fails with `InputTooShort`, carrying the length of the whole input, when
    /// no byte is left, and with `InvalidDataType` when the byte announces no
    /// type; in both cases nothing is consumed.
    pub fn read_data_type(&mut self) -> (r: Result<DataType, Error>)
        requires
            old(self).wf(),
        ensures
            final(self).wf(),
            final(self).input() == old(self).input(),
            (r, final(self).position()) == spec_read_data_type(
                old(self).input(),
                old(self).position(),
            ),
    {
        if self.pos >= self.buf.len() {
            return Err(Error::InputTooShort(self.buf.len()));
        }
        let tag = self.buf[self.pos];
        let result = match DataType::from_tag(tag) {
            Some(t) => t,
            None => {
                return Err(Error::InvalidDataType(tag));
            },
        };
        self.pos += 1;
        Ok(result)
    }

    /// Reads an integer value: its tag, then eight bytes.
    ///
    /// What was consumed before a failure stays consumed.
    pub fn read_int(&mut self) -> (r: Result<u64, Error>)
        requires
            old(self).wf(),
        ensures
            final(self).wf(),
            final(self).input() == old(self).input(),
            (r, final(self).position()) == spec_read_int(old(self).input(), old(self).position()),
    {
        let data_type = self.read_data_type()?;
        if data_type != DataType::Int {
            return Err(Error::IncoherentDataType { got: data_type, want: DataType::Int });
        }
        self.read_u64()
    }

    /// Reads a string value: its tag, its length in four bytes, then its bytes.
    ///
    /// What was consumed before a failure stays consumed.
    pub fn read_string(&mut self) -> (r: Result<&'a [u8], Error>)
        requires
            old(self).wf(),
        ensures
            final(self).wf(),
            final(self).input() == old(self).input(),
            (bytes_view(r), final(self).position()) == spec_read_string(
                old(self).input(),
                old(self).position(),
            ),
    {
        let data_type = self.read_data_type()?;
        if data_type != DataType::Str {
            return Err(Error::IncoherentDataType { got: data_type, want: DataType::Str });
        }
        let length = self.read_u32()?;
        self.read_bytes(length as usize)
    }

    /// Reads the payload of an error value: its code, the length of its
    /// message in four bytes, then the message.
    ///
    /// What was consumed before a failure stays consumed.
    pub fn read_err(&mut self) -> (r: Result<(u32, &'a [u8]), Error>)
        requires
            old(self).wf(),
        ensures
            final(self).wf(),
            final(self).input() == old(self).input(),
            (err_view(r), final(self).position()) == spec_read_err(
                old(self).input(),
                old(self).position(),
            ),
    {
        let response_code = self.read_u32()?;
        let length = self.read_u32()?;
        let result = self.read_bytes(length as usize)?;
        Ok((response_code, result))
    }

    /// Reads an error value: its tag, then its payload.
    ///
    /// What was consumed before a failure stays consumed.
    pub fn read_data_type_err(&mut self) -> (r: Result<(u32, &'a [u8]), Error>)
        requires
            old(self).wf(),
        ensures
            final(self).wf(),
            final(self).input() == old(self).input(),
            (err_view(r), final(self).position()) == spec_read_data_type_err(
                old(self).input(),
                old(self).position(),
            ),
    {
        let data_type = self.read_data_type()?;
        if data_type != DataType::Error {
            return Err(Error::IncoherentDataType { got: data_type, want: DataType::Error });
        }
        self.read_err()
    }
}

/// Writes one message into a buffer: typed values one after the other from
/// offset `HEADER_LEN` on, and at the end the length of what was written, in
/// the first four bytes.
pub struct Writer<'a> {
    buf: &'a mut [u8],
    pos: usize,
}

impl<'a> Writer<'a> {
    /// The buffer as it stands: what was written, and beyond it what the
    /// buffer held before.
    pub closed spec fn bytes(&self) -> Seq<u8> {
        self.buf@
    }

    /// The offset at which the next value goes.
    pub closed spec fn position(&self) -> int {
        self.pos as int
    }

    /// The buffer that the writer writes to.
    pub closed spec fn target(&self) -> &'a mut [u8] {
        self.buf
    }

    /// The position lies behind the header and within the buffer, and the
    /// length of any body that fits can be written in four bytes.
    pub open spec fn wf(&self) -> bool {
        &&& HEADER_LEN <= self.position() <= self.bytes().len()
        &&& self.bytes().len() - HEADER_LEN <= u32::MAX
    }

    /// The values written so far, as bytes.
    pub open spec fn body(&self) -> Seq<u8> {
        self.bytes().subrange(HEADER_LEN as int, self.position())
    }

    /// The number of bytes that can still be written.
    pub open spec fn room(&self) -> int {
        self.bytes().len() - self.position()
    }

    /// What a push of `v` leaves of a writer that was `self`.
    pub open spec fn pushed(&self, after: &Self, v: Value) -> bool {
        &&& after.wf()
        &&& after.bytes() == overlay(self.bytes(), self.position(), v.encoding())
        &&& after.position() == self.position() + v.encoded_len()
        &&& after.body() == self.body() + v.encoding()
    }

    /// A writer over `buf`, with an empty body.
    pub fn new(buf: &'a mut [u8]) -> (w: Self)
        requires
            HEADER_LEN <= old(buf).len(),
            old(buf).len() - HEADER_LEN <= u32::MAX,
        ensures
            w.wf(),
            w.bytes() == old(buf)@,
            w.position() == HEADER_LEN,
            final(w.target())@ == final(buf)@,
    {
        Self { buf, pos: HEADER_LEN }
    }

    /// Writes the length of the body into the first four bytes, which makes
    /// the buffer up to `written()` a message.
    pub fn finish(&mut self)
        requires
            old(self).wf(),
        ensures
            final(self).wf(),
            final(self).position() == old(self).position(),
            final(self).bytes() == overlay(
                old(self).bytes(),
                0,
                u32_be(old(self).body().len() as u32),
            ),
            final(self).body() == old(self).body(),
            final(self).bytes().subrange(0, final(self).position()) == frame(old(self).body()),
            final(final(self).target())@ == final(old(self).target())@,
    {
        let written = self.pos - HEADER_LEN;
        write_u32(self.buf, 0, written as u32);
        proof {
            lemma_u32_be_len(written as u32);
            assert(self.body() =~= old(self).body());
            assert(self.bytes().subrange(0, self.position()) =~= frame(old(self).body()));
        }
    }

    /// Writes a nil value.
    pub fn push_nil(&mut self)
        requires
            old(self).wf(),
            Value::Nil.encoded_len() <= old(self).room(),
        ensures
            old(self).pushed(final(self), Value::Nil),
            final(final(self).target())@ == final(old(self).target())@,
    {
        self.buf[self.pos] = DataType::Nil.tag();
        self.pos += DATA_TYPE_LEN;
        proof {
            assert(self.bytes() =~= overlay(
                old(self).bytes(),
                old(self).position(),
                Value::Nil.encoding(),
            ));
            assert(self.body() =~= old(self).body() + Value::Nil.encoding());
        }
    }

    /// Writes an integer value.
    pub fn push_int(&mut self, value: u64)
        requires
            old(self).wf(),
            Value::Int(value).encoded_len() <= old(self).room(),
        ensures
            old(self).pushed(final(self), Value::Int(value)),
            final(final(self).target())@ == final(old(self).target())@,
    {
        self.buf[self.pos] = DataType::Int.tag();
        write_u64(self.buf, self.pos + DATA_TYPE_LEN, value);
        self.pos += DATA_TYPE_LEN + INTEGER_LEN;
        proof {
            lemma_be_u64_of_u64_be(value, Seq::empty());
            assert(self.bytes() =~= overlay(
                old(self).bytes(),
                old(self).position(),
                Value::Int(value).encoding(),
            ));
            assert(self.body() =~= old(self).body() + Value::Int(value).encoding());
        }
    }

    /// Writes a string value.
    pub fn push_string(&mut self, value: &[u8])
        requires
            old(self).wf(),
            Value::Str(value@).encoded_len() <= old(self).room(),
        ensures
            old(self).pushed(final(self), Value::Str(value@)),
            final(final(self).target())@ == final(old(self).target())@,
    {
        self.buf[self.pos] = DataType::Str.tag();
        write_u32(self.buf, self.pos + DATA_TYPE_LEN, value.len() as u32);
        copy_into(self.buf, self.pos + DATA_TYPE_LEN + STRING_LEN, value);
        self.pos += DATA_TYPE_LEN + STRING_LEN + value.len();
        proof {
            lemma_u32_be_len(value.len() as u32);
            assert(self.bytes() =~= overlay(
                old(self).bytes(),
                old(self).position(),
                Value::Str(value@).encoding(),
            ));
            assert(self.body() =~= old(self).body() + Value::Str(value@).encoding());
        }
    }

    /// Writes an error value.
    pub fn push_err(&mut self, code: u32, message: &[u8])
        requires
            old(self).wf(),
            Value::Error(code, message@).encoded_len() <= old(self).room(),
        ensures
            old(self).pushed(final(self), Value::Error(code, message@)),
            final(final(self).target())@ == final(old(self).target())@,
    {
        self.buf[self.pos] = DataType::Error.tag();
        write_u32(self.buf, self.pos + DATA_TYPE_LEN, code);
        write_u32(self.buf, self.pos + DATA_TYPE_LEN + RESPONSE_CODE_LEN, message.len() as u32);
        copy_into(self.buf, self.pos + DATA_TYPE_LEN + RESPONSE_CODE_LEN + STRING_LEN, message);
        self.pos += DATA_TYPE_LEN + RESPONSE_CODE_LEN + STRING_LEN + message.len();
        proof {
            lemma_u32_be_len(code);
            lemma_u32_be_len(message.len() as u32);
            assert(self.bytes() =~= overlay(
                old(self).bytes(),
                old(self).position(),
                Value::Error(code, message@).encoding(),
            ));
            assert(self.body() =~= old(self).body() + Value::Error(code, message@).encoding());
        }
    }

    /// Gives the buffer back, as the writer leaves it.
    pub fn into_inner(self) -> (buf: &'a mut [u8])
        ensures
            buf@ == self.bytes(),
            final(buf)@ == final(self.target())@,
    {
        self.buf
    }

    /// The number of bytes of the buffer in use: the header and the body.
    pub fn written(&self) -> (n: usize)
        ensures
            n == self.position(),
    {
        self.pos
    }
}

/// A typed value that was read from a body; its byte strings lie in the body.
#[derive(Debug, Clone, Copy)]
pub enum TypedValue<'a> {
    Nil,
    Error(u32, &'a [u8]),
    Str(&'a [u8]),
    Int(u64),
}

impl<'a> View for TypedValue<'a> {
    type V = Value;

    open spec fn view(&self) -> Value {
        match *self {
            TypedValue::Nil => Value::Nil,
            TypedValue::Error(code, message) => Value::Error(code, message@),
            TypedValue::Str(s) => Value::Str(s@),
            TypedValue::Int(n) => Value::Int(n),
        }
    }
}

/// The view of a typed value that was read, or the error.
pub open spec fn value_view(r: Result<TypedValue<'_>, Error>) -> Result<Value, Error> {
    match r {
        Ok(v) => Ok(v@),
        Err(e) => Err(e),
    }
}

/// What `Reader::read_value` returns at `pos` of `input`, and the position after it.
pub open spec fn spec_read_value(input: Seq<u8>, pos: int) -> (Result<Value, Error>, int) {
    match spec_read_data_type(input, pos) {
        (Err(e), p) => (Err(e), p),
        (Ok(DataType::Nil), p) => (Ok(Value::Nil), p),
        (Ok(DataType::Error), _) => match spec_read_data_type_err(input, pos) {
            (Err(e), p) => (Err(e), p),
            (Ok((code, message)), p) => (Ok(Value::Error(code, message)), p),
        },
        (Ok(DataType::Str), _) => match spec_read_string(input, pos) {
            (Err(e), p) => (Err(e), p),
            (Ok(s), p) => (Ok(Value::Str(s)), p),
        },
        (Ok(DataType::Int), _) => match spec_read_int(input, pos) {
            (Err(e), p) => (Err(e), p),
            (Ok(n), p) => (Ok(Value::Int(n)), p),
        },
        (Ok(DataType::Arr), _) => (Err(Error::InvalidDataType(DataType::Arr.spec_tag())), pos),
    }
}

/// What `count` calls of `Reader::read_value` return from `pos` of `input`
/// on, up to the first failure, and the position after them.
pub open spec fn spec_read_values(input: Seq<u8>, pos: int, count: nat) -> (
    Result<Seq<Value>, Error>,
    int,
)
    decreases count,
{
    if count == 0 {
        (Ok(Seq::empty()), pos)
    } else {
        match spec_read_value(input, pos) {
            (Err(e), p) => (Err(e), p),
            (Ok(v), p) => match spec_read_values(input, p, (count - 1) as nat) {
                (Err(e), q) => (Err(e), q),
                (Ok(vs), q) => (Ok(seq![v] + vs), q),
            },
        }
    }
}

impl<'a> Reader<'a> {
    /// Reads one value of any type: nil, error, string or integer. An array
    /// is refused with `InvalidDataType`, and nothing of it is consumed.
    ///
    /// What was consumed before another failure stays consumed.
    pub fn read_value(&mut self) -> (r: Result<TypedValue<'a>, Error>)
        requires
            old(self).wf(),
        ensures
            final(self).wf(),
            final(self).input() == old(self).input(),
            (value_view(r), final(self).position()) == spec_read_value(
                old(self).input(),
                old(self).position(),
            ),
    {
        let start = self.pos;
        let data_type = self.read_data_type()?;
        self.pos = start;
        match data_type {
            DataType::Nil => {
                self.pos = start + 1;
                Ok(TypedValue::Nil)
            },
            DataType::Error => {
                let (code, message) = self.read_data_type_err()?;
                Ok(TypedValue::Error(code, message))
            },
            DataType::Str => {
                let s = self.read_string()?;
                Ok(TypedValue::Str(s))
            },
            DataType::Int => {
                let n = self.read_int()?;
                Ok(TypedValue::Int(n))
            },
            DataType::Arr => Err(Error::InvalidDataType(DataType::Arr.tag())),
        }
    }
}

/// An integer that was written reads back as itself, wherever it stands
/// in the input.
pub proof fn lemma_read_int_of_encoding(before: Seq<u8>, n: u64, after: Seq<u8>)
    ensures
        spec_read_int(before + Value::Int(n).encoding() + after, before.len() as int) == (
            Ok::<u64, Error>(n),
            (before.len() + 9) as int,
        ),
{
    let input = before + Value::Int(n).encoding() + after;
    let pos = before.len() as int;
    assert(input[pos] == Value::Int(n).encoding()[0]);
    lemma_be_u64_of_u64_be(n, Seq::empty());
    assert(input.subrange(pos + 1, pos + 9) =~= u64_be(n) + Seq::<u8>::empty());
}

/// A string that was written reads back as itself, wherever it stands in
/// the input.
pub proof fn lemma_read_string_of_encoding(before: Seq<u8>, s: Seq<u8>, after: Seq<u8>)
    requires
        s.len() <= u32::MAX,
    ensures
        spec_read_string(before + Value::Str(s).encoding() + after, before.len() as int) == (
            Ok::<Seq<u8>, Error>(s),
            (before.len() + 5 + s.len()) as int,
        ),
{
    let input = before + Value::Str(s).encoding() + after;
    let pos = before.len() as int;
    let len = s.len() as u32;
    assert(input[pos] == Value::Str(s).encoding()[0]);
    lemma_be_u32_of_u32_be(len, Seq::empty());
    assert(input.subrange(pos + 1, pos + 5) =~= u32_be(len) + Seq::<u8>::empty());
    assert(input.subrange(pos + 5, pos + 5 + len as int) =~= s);
}

/// An error value that was written reads back as itself, wherever it
/// stands in the input.
pub proof fn lemma_read_err_of_encoding(
    before: Seq<u8>,
    code: u32,
    message: Seq<u8>,
    after: Seq<u8>,
)
    requires
        message.len() <= u32::MAX,
    ensures
        spec_read_data_type_err(
            before + Value::Error(code, message).encoding() + after,
            before.len() as int,
        ) == (
            Ok::<(u32, Seq<u8>), Error>((code, message)),
            (before.len() + 9 + message.len()) as int,
        ),
{
    let input = before + Value::Error(code, message).encoding() + after;
    let pos = before.len() as int;
    let len = message.len() as u32;
    assert(input[pos] == Value::Error(code, message).encoding()[0]);
    lemma_be_u32_of_u32_be(code, Seq::empty());
    lemma_be_u32_of_u32_be(len, Seq::empty());
    assert(input.subrange(pos + 1, pos + 5) =~= u32_be(code) + Seq::<u8>::empty());
    assert(input.subrange(pos + 5, pos + 9) =~= u32_be(len) + Seq::<u8>::empty());
    assert(input.subrange(pos + 9, pos + 9 + len as int) =~= message);
}

/// A value that was written reads back as itself, wherever it stands in the
/// input, and the reader ends right behind it.
pub proof fn lemma_read_value_of_encoding(before: Seq<u8>, v: Value, after: Seq<u8>)
    requires
        v.encodable(),
    ensures
        spec_read_value(before + v.encoding() + after, before.len() as int) == (
            Ok::<Value, Error>(v),
            (before.len() + v.encoded_len()) as int,
        ),
{
    let input = before + v.encoding() + after;
    let pos = before.len() as int;
    assert(input[pos] == v.encoding()[0]);
    match v {
        Value::Nil => {},
        Value::Error(code, message) => {
            lemma_read_err_of_encoding(before, code, message, after);
        },
        Value::Str(s) => {
            lemma_read_string_of_encoding(before, s, after);
        },
        Value::Int(n) => {
            lemma_read_int_of_encoding(before, n, after);
        },
    }
}

/// Appending a value to a sequence appends its bytes to the bytes of the sequence.
pub proof fn lemma_encode_values_push(values: Seq<Value>, v: Value)
    ensures
        encode_values(values.push(v)) == encode_values(values) + v.encoding(),
    decreases values.len(),
{
    if values.len() == 0 {
        assert(values.push(v).skip(1) =~= Seq::<Value>::empty());
        assert(encode_values(Seq::<Value>::empty()) =~= Seq::<u8>::empty());
        assert(encode_values(values.push(v)) =~= encode_values(values) + v.encoding());
    } else {
        lemma_encode_values_push(values.skip(1), v);
        assert(values.push(v).skip(1) =~= values.skip(1).push(v));
        assert(encode_values(values.push(v)) =~= encode_values(values) + v.encoding());
    }
}

/// Values that were written one after the other read back as the same
/// values in the same order, wherever they stand in the input, and the
/// reader ends right behind them.
pub proof fn lemma_read_values_of_encoding(before: Seq<u8>, values: Seq<Value>, after: Seq<u8>)
    requires
        forall|i: int| 0 <= i < values.len() ==> (#[trigger] values[i]).encodable(),
    ensures
        spec_read_values(
            before + encode_values(values) + after,
            before.len() as int,
            values.len(),
        ) == (
            Ok::<Seq<Value>, Error>(values),
            (before.len() + encode_values(values).len()) as int,
        ),
    decreases values.len(),
{
    if values.len() > 0 {
        let input = before + encode_values(values) + after;
        let v = values[0];
        let tail = values.skip(1);
        assert(input =~= before + v.encoding() + (encode_values(tail) + after));
        lemma_read_value_of_encoding(before, v, encode_values(tail) + after);
        assert(input =~= (before + v.encoding()) + encode_values(tail) + after);
        lemma_read_values_of_encoding(before + v.encoding(), tail, after);
        assert(seq![v] + tail =~= values);
        v.lemma_encoded_len();
        assert(encode_values(values).len() == v.encoded_len() + encode_values(tail).len());
    } else {
        assert(values =~= Seq::<Value>::empty());
    }
}

/// A body made of one push per value and framed at the end parses to that
/// body, which reads back as the same values in the same order, with
/// nothing left over.
pub proof fn lemma_written_message_reads_back(values: Seq<Value>)
    requires
        forall|i: int| 0 <= i < values.len() ==> (#[trigger] values[i]).encodable(),
        encode_values(values).len() <= MAX_MSG_LEN,
    ensures
        spec_parse_message(frame(encode_values(values))) == Ok::<(usize, Seq<u8>), Error>(
            ((HEADER_LEN + encode_values(values).len()) as usize, encode_values(values)),
        ),
        spec_read_values(encode_values(values), 0, values.len()) == (
            Ok::<Seq<Value>, Error>(values),
            encode_values(values).len() as int,
        ),
{
    let body = encode_values(values);
    lemma_parse_frame(body, Seq::empty());
    assert(frame(body) + Seq::<u8>::empty() =~= frame(body));
    lemma_read_values_of_encoding(Seq::empty(), values, Seq::empty());
    assert(Seq::<u8>::empty() + body + Seq::<u8>::empty() =~= body);
}

/// The byte strings that a sequence of slices holds.
pub open spec fn views(args: Seq<&[u8]>) -> Seq<Seq<u8>> {
    Seq::new(args.len(), |i: int| args[i]@)
}

/// The byte strings of each of `commands`.
pub open spec fn command_views(commands: Seq<Vec<&[u8]>>) -> Seq<Seq<Seq<u8>>> {
    Seq::new(commands.len(), |i: int| views(commands[i]@))
}

/// The strings of all of `commands`, one command after the other.
pub open spec fn all_args(commands: Seq<Seq<Seq<u8>>>) -> Seq<Seq<u8>>
    decreases commands.len(),
{
    if commands.len() == 0 {
        Seq::empty()
    } else {
        all_args(commands.drop_last()) + commands.last()
    }
}

/// The bytes that `args` take when each is written as a string value.
pub open spec fn strings_size(args: Seq<Seq<u8>>) -> nat
    decreases args.len(),
{
    if args.len() == 0 {
        0
    } else {
        strings_size(args.drop_last()) + DATA_TYPE_LEN as nat + STRING_LEN as nat
            + args.last().len()
    }
}

/// The size of the message that asks for `commands`: the header, an
/// integer value that counts the strings, and each string as a value.
pub open spec fn spec_buffer_size_needed(commands: Seq<Seq<Seq<u8>>>) -> nat {
    HEADER_LEN as nat + DATA_TYPE_LEN as nat + INTEGER_LEN as nat + strings_size(
        all_args(commands),
    )
}

/// `a + b`, or the largest number where the sum is larger.
fn add_capped(a: usize, b: usize) -> (sum: usize)
    ensures
        sum == if a + b <= usize::MAX {
            a + b
        } else {
            usize::MAX as int
        },
{
    if a > usize::MAX - b {
        usize::MAX
    } else {
        a + b
    }
}

/// The number of bytes that a writer needs for the message that asks for
/// `commands`, or `usize::MAX` where that number is larger.
pub fn buffer_size_needed(commands: &[Vec<&[u8]>]) -> (size: usize)
    ensures
        size == if spec_buffer_size_needed(command_views(commands@)) <= usize::MAX {
            spec_buffer_size_needed(command_views(commands@))
        } else {
            usize::MAX as nat
        },
{
    let ghost all = command_views(commands@);
    let mut size: usize = HEADER_LEN + DATA_TYPE_LEN + INTEGER_LEN;
    let mut i: usize = 0;
    assert(all.subrange(0, 0) =~= Seq::<Seq<Seq<u8>>>::empty());
    while i < commands.len()
        invariant
            i <= commands.len(),
            all == command_views(commands@),
            size == if 13 + strings_size(all_args(all.subrange(0, i as int))) <= usize::MAX {
                13 + strings_size(all_args(all.subrange(0, i as int)))
            } else {
                usize::MAX as nat
            },
        decreases commands.len() - i,
    {
        let command = &commands[i];
        let ghost done = all_args(all.subrange(0, i as int));
        let ghost strings = views(command@);
        let mut j: usize = 0;
        assert(done + strings.subrange(0, 0) =~= done);
        while j < command.len()
            invariant
                j <= command.len(),
                strings == views(command@),
                size == if 13 + strings_size(done + strings.subrange(0, j as int)) <= usize::MAX {
                    13 + strings_size(done + strings.subrange(0, j as int))
                } else {
                    usize::MAX as nat
                },
            decreases command.len() - j,
        {
            let value = command[j];
            proof {
                let before = done + strings.subrange(0, j as int);
                let after = done + strings.subrange(0, j + 1);
                assert(after.drop_last() =~= before);
                assert(after.last() == value@);
            }
            size = add_capped(size, DATA_TYPE_LEN + STRING_LEN);
            size = add_capped(size, value.len());
            j += 1;
        }
        proof {
            assert(strings.subrange(0, j as int) =~= strings);
            assert(all.subrange(0, i + 1).drop_last() =~= all.subrange(0, i as int));
            assert(all.subrange(0, i + 1).last() == strings);
        }
        i += 1;
    }
    assert(all.subrange(0, i as int) =~= all);
    size
}

} // verus!
