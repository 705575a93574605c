//! The command executors: `GET`, `SET` and `DEL` on the keyspace, each
//! answering with one typed value, and the function that runs one request
//! and frames the answer.

use vstd::prelude::*;
use vstd::slice::{slice_subrange, slice_to_vec};
use vstd::string::StringExecFns;
use vstd::utf8::{encode_utf8, valid_utf8};
use crate::bytes::{lemma_u32_be_len, overlay};
use crate::command;
use crate::command::{del_name, get_name, is_del, is_get, is_set, set_name, spec_parse};
use crate::protocol::views;
use crate::hash_map::SuperHashMap;
use crate::protocol::{frame, Value, Writer, BUF_LEN, HEADER_LEN, MAX_MSG_LEN};
use crate::text::{is_utf8, lossy_text, utf8_text};
use crate::ResponseCode;

verus! {

/// The message of the answer to a key that is not valid UTF-8.
pub const INVALID_KEY: &'static str = "invalid key";

/// The message of the answer to a `SET` whose key or value is not valid UTF-8.
pub const INVALID_KEY_OR_VALUE: &'static str = "invalid key/value";

/// The message of the answer to a body that ends too early.
pub const INTERNAL_ERROR: &'static str = "internal error";

/// The start of the message of the answer to an unknown command; the
/// name of the command follows it.
pub const INVALID_COMMAND: &'static str = "invalid command ";

/// The message of the answer that stands in for one that would not fit
/// in a message.
pub const RESPONSE_TOO_BIG: &'static str = "response is too big";

/// The message of the answer to a `SET` that the keyspace has no count left for.
pub const KEYSPACE_FULL: &'static str = "keyspace is full";

/// What the executors work on: the keyspace.
pub struct Context {
    pub data: SuperHashMap<Vec<u8>>,
}

/// The byte strings that a map of vectors holds.
pub open spec fn values_of(m: Map<Seq<u8>, Vec<u8>>) -> Map<Seq<u8>, Seq<u8>> {
    m.map_values(|v: Vec<u8>| v@)
}

impl View for Context {
    type V = Map<Seq<u8>, Seq<u8>>;

    /// The keyspace: each key with the value that a lookup finds.
    open spec fn view(&self) -> Map<Seq<u8>, Seq<u8>> {
        values_of(self.data@)
    }
}

impl Context {
    /// The table behind the keyspace is well formed.
    pub open spec fn wf(&self) -> bool {
        self.data.wf()
    }

    /// An empty keyspace.
    pub fn new() -> (context: Self)
        ensures
            context.wf(),
            context@ == Map::<Seq<u8>, Seq<u8>>::empty(),
            context.data.disjoint(),
            context.data.spec_len() == 0,
            context.data.primary_buckets() == 16,
    {
        assert((16usize as u64) & ((16usize - 1) as u64) == 0) by (bit_vector);
        let context = Context { data: SuperHashMap::new(16) };
        assert(context@ =~= Map::<Seq<u8>, Seq<u8>>::empty());
        context
    }
}

/// An error value with the code `Unknown` and the message `text`.
pub open spec fn unknown_error(text: Seq<char>) -> Value {
    Value::Error(ResponseCode::Unknown.spec_code(), encode_utf8(text))
}

/// The answer that stands in for one that would not fit in a message.
pub open spec fn too_big() -> Value {
    Value::Error(ResponseCode::TooBig.spec_code(), encode_utf8(RESPONSE_TOO_BIG@))
}

/// `v` where it fits in a message, else the answer that stands in for it.
pub open spec fn fitted(v: Value) -> Value {
    if v.encoded_len() <= MAX_MSG_LEN {
        v
    } else {
        too_big()
    }
}

/// The answer to `GET key`.
pub open spec fn get_response(table: SuperHashMap<Vec<u8>>, key: Seq<u8>) -> Value {
    if !valid_utf8(key) {
        unknown_error(INVALID_KEY@)
    } else if table@.contains_key(key) {
        fitted(Value::Str(table@[key]@))
    } else {
        Value::Nil
    }
}

/// The answer to `SET key value`.
pub open spec fn set_response(table: SuperHashMap<Vec<u8>>, key: Seq<u8>, value: Seq<u8>) -> Value {
    if !valid_utf8(key) || !valid_utf8(value) {
        unknown_error(INVALID_KEY_OR_VALUE@)
    } else if table.spec_len() >= usize::MAX {
        Value::Error(ResponseCode::TooBig.spec_code(), encode_utf8(KEYSPACE_FULL@))
    } else {
        Value::Nil
    }
}

/// The answer to `DEL key`.
pub open spec fn del_response(table: SuperHashMap<Vec<u8>>, key: Seq<u8>) -> Value {
    if !valid_utf8(key) {
        unknown_error(INVALID_KEY@)
    } else if table@.contains_key(key) {
        Value::Int(1)
    } else {
        Value::Int(0)
    }
}

/// The answer to a command that is not known, or lacks arguments.
pub open spec fn unknown_command(name: Seq<char>) -> Value {
    fitted(unknown_error(INVALID_COMMAND@ + name))
}

/// The lengths of the messages, in bytes.
pub proof fn lemma_message_lengths()
    ensures
        encode_utf8(INVALID_KEY@).len() == 11,
        encode_utf8(INVALID_KEY_OR_VALUE@).len() == 17,
        encode_utf8(INTERNAL_ERROR@).len() == 14,
        encode_utf8(INVALID_COMMAND@).len() == 16,
        encode_utf8(RESPONSE_TOO_BIG@).len() == 19,
        encode_utf8(KEYSPACE_FULL@).len() == 16,
{
    reveal_strlit("invalid key");
    reveal_strlit("invalid key/value");
    reveal_strlit("internal error");
    reveal_strlit("invalid command ");
    reveal_strlit("response is too big");
    reveal_strlit("keyspace is full");
    vstd::utf8::is_ascii_chars_encode_utf8(INVALID_KEY@);
    vstd::utf8::is_ascii_chars_encode_utf8(INVALID_KEY_OR_VALUE@);
    vstd::utf8::is_ascii_chars_encode_utf8(INTERNAL_ERROR@);
    vstd::utf8::is_ascii_chars_encode_utf8(INVALID_COMMAND@);
    vstd::utf8::is_ascii_chars_encode_utf8(RESPONSE_TOO_BIG@);
    vstd::utf8::is_ascii_chars_encode_utf8(KEYSPACE_FULL@);
}

/// Writes an error value with the code `code` and the message `text`.
fn push_text(writer: &mut Writer, code: ResponseCode, text: &str)
    requires
        old(writer).wf(),
        9 + encode_utf8(text@).len() <= old(writer).room(),
    ensures
        old(writer).pushed(
            final(writer),
            Value::Error(code.spec_code(), encode_utf8(text@)),
        ),
        final(final(writer).target())@ == final(old(writer).target())@,
{
    writer.push_err(code.code(), text.as_bytes());
}

/// Writes the answer that stands in for one that would not fit.
fn push_too_big(writer: &mut Writer)
    requires
        old(writer).wf(),
        MAX_MSG_LEN <= old(writer).room(),
    ensures
        old(writer).pushed(final(writer), too_big()),
        final(final(writer).target())@ == final(old(writer).target())@,
{
    proof {
        lemma_message_lengths();
    }
    push_text(writer, ResponseCode::TooBig, RESPONSE_TOO_BIG);
}

/// Answers `GET`: the value stored under the first argument, or nil.
pub fn do_get(context: &mut Context, args: &[&[u8]], response_writer: &mut Writer)
    requires
        old(context).wf(),
        args.len() >= 1,
        old(response_writer).wf(),
        MAX_MSG_LEN <= old(response_writer).room(),
    ensures
        *final(context) == *old(context),
        old(response_writer).pushed(
            final(response_writer),
            get_response(old(context).data, args[0]@),
        ),
        final(final(response_writer).target())@ == final(old(response_writer).target())@,
{
    proof {
        lemma_message_lengths();
    }
    let key = args[0];
    if !is_utf8(key) {
        push_text(response_writer, ResponseCode::Unknown, INVALID_KEY);
        return ;
    }
    match context.data.get(key) {
        None => {
            response_writer.push_nil();
        },
        Some(value) => {
            if value.len() <= MAX_MSG_LEN - 5 {
                response_writer.push_string(value.as_slice());
            } else {
                push_too_big(response_writer);
            }
        },
    }
}

/// Answers `SET`: stores the second argument under the first, and says nil.
pub fn do_set(context: &mut Context, args: &[&[u8]], response_writer: &mut Writer)
    requires
        old(context).wf(),
        args.len() >= 2,
        old(response_writer).wf(),
        MAX_MSG_LEN <= old(response_writer).room(),
    ensures
        final(context).wf(),
        old(response_writer).pushed(
            final(response_writer),
            set_response(old(context).data, args[0]@, args[1]@),
        ),
        final(final(response_writer).target())@ == final(old(response_writer).target())@,
        final(context)@ == if set_response(old(context).data, args[0]@, args[1]@) is Nil {
            old(context)@.insert(args[0]@, args[1]@)
        } else {
            old(context)@
        },
        set_response(old(context).data, args[0]@, args[1]@) !is Nil
            ==> *final(context) == *old(context),
        old(context).data.disjoint() && !old(context).data.secondary().contains_key(args[0]@)
            ==> final(context).data.disjoint(),
{
    proof {
        lemma_message_lengths();
    }
    if !is_utf8(args[0]) || !is_utf8(args[1]) {
        push_text(response_writer, ResponseCode::Unknown, INVALID_KEY_OR_VALUE);
        return ;
    }
    if context.data.len() == usize::MAX {
        push_text(response_writer, ResponseCode::TooBig, KEYSPACE_FULL);
        return ;
    }
    let key = slice_to_vec(args[0]);
    let value = slice_to_vec(args[1]);
    context.data.insert(key, value);
    proof {
        assert(final(context)@ =~= old(context)@.insert(args[0]@, args[1]@));
    }
    response_writer.push_nil();
}

/// Answers `DEL`: takes the first argument out of the keyspace, and says
/// whether it was there.
pub fn do_del(context: &mut Context, args: &[&[u8]], response_writer: &mut Writer)
    requires
        old(context).wf(),
        args.len() >= 1,
        old(response_writer).wf(),
        MAX_MSG_LEN <= old(response_writer).room(),
    ensures
        final(context).wf(),
        old(response_writer).pushed(
            final(response_writer),
            del_response(old(context).data, args[0]@),
        ),
        final(final(response_writer).target())@ == final(old(response_writer).target())@,
        final(context)@ == if valid_utf8(args[0]@) {
            values_of(old(context).data.spec_remove(args[0]@))
        } else {
            old(context)@
        },
        !valid_utf8(args[0]@) ==> *final(context) == *old(context),
        old(context).data.disjoint() ==> final(context).data.disjoint(),
{
    proof {
        lemma_message_lengths();
    }
    let key = args[0];
    if !is_utf8(key) {
        push_text(response_writer, ResponseCode::Unknown, INVALID_KEY);
        return ;
    }
    match context.data.remove(key) {
        None => {
            response_writer.push_int(0);
        },
        Some(_) => {
            response_writer.push_int(1);
        },
    }
}

/// Why a request was not answered. Every request is answered, a body
/// that does not parse with an error value, so that no request gives this.
#[derive(Debug, Clone, Copy, PartialEq, Eq, Structural)]
pub enum DoRequestError {
    /// The body did not parse.
    ParseCommand(command::ParseCommandError),
}

/// The answer to the request with the arguments `argv`.
pub open spec fn respond_to(table: SuperHashMap<Vec<u8>>, argv: Seq<Seq<u8>>) -> Value {
    if argv.len() == 0 {
        unknown_command(Seq::empty())
    } else if argv[0] == get_name() && argv.len() >= 2 {
        get_response(table, argv[1])
    } else if argv[0] == set_name() && argv.len() >= 3 {
        set_response(table, argv[1], argv[2])
    } else if argv[0] == del_name() && argv.len() >= 2 {
        del_response(table, argv[1])
    } else {
        unknown_command(utf8_text(argv[0]))
    }
}

/// The keyspace after the request with the arguments `argv`.
pub open spec fn keyspace_after(table: SuperHashMap<Vec<u8>>, argv: Seq<Seq<u8>>) -> Map<
    Seq<u8>,
    Seq<u8>,
> {
    if argv.len() >= 3 && argv[0] == set_name() && set_response(table, argv[1], argv[2]) is Nil {
        values_of(table@).insert(argv[1], argv[2])
    } else if argv.len() >= 2 && argv[0] == del_name() && valid_utf8(argv[1]) {
        values_of(table.spec_remove(argv[1]))
    } else {
        values_of(table@)
    }
}

/// What `do_request` answers to `body`: the answer to its arguments, or
/// an error value where the body does not parse.
pub open spec fn spec_do_request(table: SuperHashMap<Vec<u8>>, body: Seq<u8>) -> Value {
    match spec_parse(body) {
        Ok(argv) => respond_to(table, argv),
        Err(_) => unknown_error(INTERNAL_ERROR@),
    }
}

/// The keyspace after `do_request` on `body`.
pub open spec fn spec_keyspace_after(table: SuperHashMap<Vec<u8>>, body: Seq<u8>) -> Map<
    Seq<u8>,
    Seq<u8>,
> {
    match spec_parse(body) {
        Ok(argv) => keyspace_after(table, argv),
        Err(_) => values_of(table@),
    }
}

/// Whether `body` sets a key that the secondary table holds, which leaves
/// the key in both tables.
pub open spec fn sets_shadowed_key(table: SuperHashMap<Vec<u8>>, body: Seq<u8>) -> bool {
    match spec_parse(body) {
        Ok(argv) => argv.len() >= 3 && argv[0] == set_name() && table.secondary().contains_key(
            argv[1],
        ),
        Err(_) => false,
    }
}

/// Every answer fits in a message.
pub proof fn lemma_answer_fits(table: SuperHashMap<Vec<u8>>, body: Seq<u8>)
    ensures
        spec_do_request(table, body).encoded_len() <= MAX_MSG_LEN,
{
    lemma_message_lengths();
}

/// Runs the request in `body` against the keyspace and writes the answer
/// as one message at the start of `write_buf`. Returns the length of that
/// message.
///
/// Every body is answered: one that does not parse with the error value
/// that says `internal error`, and the keyspace stays as it was.
pub fn do_request(context: &mut Context, body: &[u8], write_buf: &mut [u8]) -> (r: Result<
    usize,
    DoRequestError,
>)
    requires
        old(context).wf(),
        old(write_buf).len() == BUF_LEN,
    ensures
        final(context).wf(),
        final(context)@ == spec_keyspace_after(old(context).data, body@),
        old(context).data.disjoint() && !sets_shadowed_key(old(context).data, body@)
            ==> final(context).data.disjoint(),
        spec_parse(body@) is Err ==> *final(context) == *old(context),
        r == Ok::<usize, DoRequestError>(
            (HEADER_LEN + spec_do_request(old(context).data, body@).encoded_len()) as usize,
        ),
        HEADER_LEN + spec_do_request(old(context).data, body@).encoded_len() <= BUF_LEN,
        final(write_buf)@ == overlay(
            old(write_buf)@,
            0,
            frame(spec_do_request(old(context).data, body@).encoding()),
        ),
{
    let parsed = command::parse(body);
    proof {
        lemma_answer_fits(old(context).data, body@);
    }
    let ghost answer = spec_do_request(old(context).data, body@);
    let mut writer = Writer::new(write_buf);
    match parsed {
        Err(_) => {
            proof {
                lemma_message_lengths();
            }
            push_text(&mut writer, ResponseCode::Unknown, INTERNAL_ERROR);
        },
        Ok(request) => {
            let ghost argv = views(request@);
            if request.len() == 0 {
                push_unknown_command(&mut writer, String::new());
            } else {
                let cmd = request[0];
                let args = slice_subrange(request.as_slice(), 1, request.len());
                assert(forall|i: int| 0 <= i < args@.len() ==> args@[i]@ == argv[i + 1]);
                if is_get(cmd) && args.len() >= 1 {
                    do_get(context, args, &mut writer);
                } else if is_set(cmd) && args.len() >= 2 {
                    do_set(context, args, &mut writer);
                } else if is_del(cmd) && args.len() >= 1 {
                    do_del(context, args, &mut writer);
                } else {
                    push_unknown_command(&mut writer, lossy_text(cmd));
                }
            }
        },
    }
    writer.finish();
    let written = writer.written();
    proof {
        answer.lemma_encoded_len();
        lemma_framed(old(write_buf)@, writer.bytes(), answer);
    }
    let _ = writer.into_inner();
    Ok(written)
}

/// Writes the answer to a command that is not known: its name behind the
/// words that say so, or the stand-in where that would not fit.
pub fn push_unknown_command(writer: &mut Writer, name: String)
    requires
        old(writer).wf(),
        MAX_MSG_LEN <= old(writer).room(),
    ensures
        old(writer).pushed(final(writer), unknown_command(name@)),
        final(final(writer).target())@ == final(old(writer).target())@,
{
    let mut text = String::from_str(INVALID_COMMAND);
    text.append(name.as_str());
    let bytes = text.as_str().as_bytes();
    if bytes.len() <= MAX_MSG_LEN - 9 {
        writer.push_err(ResponseCode::Unknown.code(), bytes);
    } else {
        push_too_big(writer);
    }
}

/// A buffer in which an answer was written behind the header, and then the
/// header, starts with the answer as a message and is otherwise as before.
proof fn lemma_framed(before: Seq<u8>, after: Seq<u8>, answer: Value)
    requires
        before.len() == BUF_LEN,
        answer.encoded_len() <= MAX_MSG_LEN,
        after == overlay(
            overlay(before, HEADER_LEN as int, answer.encoding()),
            0,
            crate::bytes::u32_be(answer.encoded_len() as u32),
        ),
    ensures
        after == overlay(before, 0, frame(answer.encoding())),
{
    answer.lemma_encoded_len();
    lemma_u32_be_len(answer.encoded_len() as u32);
    assert(after =~= overlay(before, 0, frame(answer.encoding())));
}

} // verus!
