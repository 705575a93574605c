//! The client's side of the protocol: the message that asks for commands,
//! and the value that an answer holds.

use vstd::prelude::*;
use crate::command::{request_values, string_values};
use crate::protocol::{all_args, buffer_size_needed, command_views, encode_values, frame};
use crate::protocol::{lemma_encode_values_push, parse_message, spec_buffer_size_needed};
use crate::protocol::{spec_parse_message, spec_read_value, strings_size, views, Error, Reader};
use crate::protocol::{TypedValue, Value, Writer, BUF_LEN, MAX_MSG_LEN};

verus! {

/// Why a query could not be made, or its answer not be read.
#[derive(Debug, Clone, Copy, PartialEq, Eq, Structural)]
pub enum QueryError {
    /// The answer is not a message that holds a value.
    Protocol(Error),
    /// The commands need a message of that many bytes, which is too long.
    MessageTooLong(usize),
}

/// The strings of all of `commands`, one command after the other.
fn flatten<'a>(commands: &[Vec<&'a [u8]>]) -> (flat: Vec<&'a [u8]>)
    ensures
        views(flat@) == all_args(command_views(commands@)),
{
    let ghost all = command_views(commands@);
    let mut flat: Vec<&'a [u8]> = Vec::new();
    let mut i: usize = 0;
    assert(all.subrange(0, 0) =~= Seq::<Seq<Seq<u8>>>::empty());
    assert(views(flat@) =~= Seq::<Seq<u8>>::empty());
    while i < commands.len()
        invariant
            i <= commands.len(),
            all == command_views(commands@),
            views(flat@) == all_args(all.subrange(0, i as int)),
        decreases commands.len() - i,
    {
        let command = &commands[i];
        let ghost done = views(flat@);
        let ghost strings = views(command@);
        let mut j: usize = 0;
        assert(done + strings.subrange(0, 0) =~= done);
        while j < command.len()
            invariant
                j <= command.len(),
                strings == views(command@),
                views(flat@) == done + strings.subrange(0, j as int),
            decreases command.len() - j,
        {
            let ghost prev = views(flat@);
            flat.push(command[j]);
            proof {
                assert(views(flat@) =~= prev.push(command@[j as int]@));
                assert(strings.subrange(0, j + 1) =~= strings.subrange(0, j as int).push(
                    strings[j as int],
                ));
            }
            j += 1;
        }
        proof {
            assert(strings.subrange(0, j as int) =~= strings);
            assert(all.subrange(0, i + 1).drop_last() =~= all.subrange(0, i as int));
            assert(all.subrange(0, i + 1).last() == strings);
        }
        i += 1;
    }
    assert(all.subrange(0, i as int) =~= all);
    flat
}

/// Each string takes five bytes and its own, and the strings at the front
/// of a sequence take no more than all of them.
proof fn lemma_strings_size(args: Seq<Seq<u8>>, k: int)
    requires
        0 <= k <= args.len(),
    ensures
        strings_size(args.subrange(0, k)) <= strings_size(args),
        5 * args.len() <= strings_size(args),
    decreases args.len(),
{
    if args.len() > 0 {
        if k < args.len() {
            lemma_strings_size(args.drop_last(), k);
            assert(args.drop_last().subrange(0, k) =~= args.subrange(0, k));
        } else {
            lemma_strings_size(args.drop_last(), k - 1);
            assert(args.subrange(0, k) =~= args);
        }
    } else {
        assert(args.subrange(0, k) =~= args);
    }
}

/// The values of the request for `n` arguments of which `done` are written.
spec fn request_so_far(n: u64, done: Seq<Seq<u8>>) -> Seq<Value> {
    seq![Value::Int(n)] + string_values(done)
}

/// The message that asks for `commands`: one request that holds the
/// strings of all of them, one command after the other.
///
/// Fails with `MessageTooLong` where the message would not fit in
/// `BUF_LEN` bytes, which is where its body would be longer than
/// `MAX_MSG_LEN`; the payload is what `buffer_size_needed` gives.
pub fn encode_request(commands: &[Vec<&[u8]>]) -> (r: Result<Vec<u8>, QueryError>)
    ensures
        match r {
            Ok(bytes) => {
                &&& spec_buffer_size_needed(command_views(commands@)) <= BUF_LEN
                &&& bytes@ == frame(
                    encode_values(request_values(all_args(command_views(commands@)))),
                )
            },
            Err(QueryError::MessageTooLong(size)) => {
                &&& spec_buffer_size_needed(command_views(commands@)) > BUF_LEN
                &&& size == if spec_buffer_size_needed(command_views(commands@)) <= usize::MAX {
                    spec_buffer_size_needed(command_views(commands@))
                } else {
                    usize::MAX as nat
                }
            },
            Err(_) => false,
        },
{
    let size = buffer_size_needed(commands);
    if size > BUF_LEN {
        return Err(QueryError::MessageTooLong(size));
    }
    let flat = flatten(commands);
    let ghost args = views(flat@);
    proof {
        lemma_strings_size(args, 0);
    }
    let n_args = flat.len() as u64;
    let mut buf: Vec<u8> = Vec::new();
    buf.resize(BUF_LEN, 0xAA);
    let mut writer = Writer::new(buf.as_mut_slice());
    writer.push_int(n_args);
    proof {
        assert(request_so_far(n_args, args.subrange(0, 0)) =~= seq![Value::Int(n_args)]);
        assert(seq![Value::Int(n_args)].skip(1) =~= Seq::<Value>::empty());
        assert(encode_values(Seq::<Value>::empty()) =~= Seq::<u8>::empty());
        assert(encode_values(seq![Value::Int(n_args)]) =~= Value::Int(n_args).encoding());
        assert(writer.body() =~= Value::Int(n_args).encoding());
    }
    let mut k: usize = 0;
    while k < flat.len()
        invariant
            k <= flat.len(),
            args == views(flat@),
            13 + strings_size(args) <= BUF_LEN,
            writer.wf(),
            writer.bytes().len() == BUF_LEN,
            writer.position() == 13 + strings_size(args.subrange(0, k as int)),
            writer.body() == encode_values(request_so_far(n_args, args.subrange(0, k as int))),
            after_borrow(buf)@ == final(writer.target())@,
        decreases flat.len() - k,
    {
        let value = flat[k];
        proof {
            lemma_strings_size(args, k + 1);
            assert(args.subrange(0, k + 1).drop_last() =~= args.subrange(0, k as int));
            assert(args.subrange(0, k + 1).last() == value@);
            lemma_encode_values_push(
                request_so_far(n_args, args.subrange(0, k as int)),
                Value::Str(value@),
            );
            assert(request_so_far(n_args, args.subrange(0, k as int)).push(Value::Str(value@))
                =~= request_so_far(n_args, args.subrange(0, k + 1)));
        }
        writer.push_string(value);
        proof {
            Value::Str(value@).lemma_encoded_len();
        }
        k += 1;
    }
    writer.finish();
    let written = writer.written();
    let ghost message = writer.bytes().subrange(0, written as int);
    let _ = writer.into_inner();
    buf.truncate(written);
    proof {
        assert(args.subrange(0, k as int) =~= args);
        assert(request_so_far(n_args, args) =~= request_values(args));
    }
    Ok(buf)
}

/// The view of what `decode_response` returns.
pub open spec fn response_view(r: Result<TypedValue<'_>, QueryError>) -> Result<Value, QueryError> {
    match r {
        Ok(v) => Ok(v@),
        Err(e) => Err(e),
    }
}

/// What `decode_response` returns on `buf`.
pub open spec fn spec_decode_response(buf: Seq<u8>) -> Result<Value, QueryError> {
    match spec_parse_message(buf) {
        Err(e) => Err(QueryError::Protocol(e)),
        Ok((_, body)) => match spec_read_value(body, 0).0 {
            Err(e) => Err(QueryError::Protocol(e)),
            Ok(v) => Ok(v),
        },
    }
}

/// The value that the answer at the front of `buf` holds: the first value
/// of the body of the first message.
pub fn decode_response(buf: &[u8]) -> (r: Result<TypedValue<'_>, QueryError>)
    ensures
        response_view(r) == spec_decode_response(buf@),
{
    let (_, message) = match parse_message(buf) {
        Ok(parsed) => parsed,
        Err(e) => {
            return Err(QueryError::Protocol(e));
        },
    };
    let mut reader = Reader::new(message);
    match reader.read_value() {
        Ok(v) => Ok(v),
        Err(e) => Err(QueryError::Protocol(e)),
    }
}

} // verus!
