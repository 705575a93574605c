//! The command parser: a request body is an integer that counts the
//! arguments, then each argument as a string; the first argument names the
//! command.

use vstd::prelude::*;
use crate::protocol::{encode_values, spec_read_int, spec_read_string, views, Error, Reader, Value};
use crate::protocol::{lemma_read_int_of_encoding, lemma_read_string_of_encoding};

verus! {

/// Why a request body could not be parsed.
#[derive(Debug, Clone, Copy, PartialEq, Eq, Structural)]
pub enum ParseCommandError {
    /// The body is not an integer followed by that many strings.
    Protocol(Error),
}

/// The arguments of a request, the name of the command first; each lies
/// in the body that was parsed.
pub type ParsedCommand<'a> = Vec<&'a [u8]>;

/// What `count` strings read from `pos` of `body` on give: the strings, or
/// the first failure.
pub open spec fn spec_parse_args(body: Seq<u8>, pos: int, count: nat) -> Result<
    Seq<Seq<u8>>,
    Error,
>
    decreases count,
{
    if count == 0 {
        Ok(Seq::empty())
    } else {
        match spec_read_string(body, pos) {
            (Err(e), _) => Err(e),
            (Ok(s), p) => match spec_parse_args(body, p, (count - 1) as nat) {
                Err(e) => Err(e),
                Ok(rest) => Ok(seq![s] + rest),
            },
        }
    }
}

/// What `parse` returns on `body`: the strings that the leading integer
/// announces, or the first failure of the reader.
pub open spec fn spec_parse(body: Seq<u8>) -> Result<Seq<Seq<u8>>, ParseCommandError> {
    match spec_read_int(body, 0) {
        (Err(e), _) => Err(ParseCommandError::Protocol(e)),
        (Ok(n), p) => match spec_parse_args(body, p, n as nat) {
            Err(e) => Err(ParseCommandError::Protocol(e)),
            Ok(args) => Ok(args),
        },
    }
}

/// The view of what `parse` returns.
pub open spec fn parsed_view(r: Result<ParsedCommand<'_>, ParseCommandError>) -> Result<
    Seq<Seq<u8>>,
    ParseCommandError,
> {
    match r {
        Ok(args) => Ok(views(args@)),
        Err(e) => Err(e),
    }
}

/// Parses a request body into its arguments.
///
/// A body starts with an integer value, the number of arguments,
/// followed by that many string values; bytes behind them are ignored.
/// The first failure of the reader is returned as it is; on an empty body
/// that is `InputTooShort(0)`.
pub fn parse<'a>(body: &'a [u8]) -> (r: Result<ParsedCommand<'a>, ParseCommandError>)
    ensures
        parsed_view(r) == spec_parse(body@),
{
    let mut args: Vec<&'a [u8]> = Vec::new();
    let mut reader = Reader::new(body);
    let count = match reader.read_int() {
        Ok(n) => n,
        Err(e) => {
            return Err(ParseCommandError::Protocol(e));
        },
    };
    let ghost start = reader.position();
    let mut n_args = count;
    while n_args > 0
        invariant
            reader.wf(),
            reader.input() == body@,
            spec_read_int(body@, 0) == (Ok::<u64, Error>(count), start),
            n_args <= count,
            spec_parse_args(body@, start, count as nat) == match spec_parse_args(
                body@,
                reader.position(),
                n_args as nat,
            ) {
                Ok(rest) => Ok::<Seq<Seq<u8>>, Error>(views(args@) + rest),
                Err(e) => Err(e),
            },
        decreases n_args,
    {
        let ghost before = views(args@);
        let ghost at = reader.position();
        let arg = match reader.read_string() {
            Ok(arg) => arg,
            Err(e) => {
                assert(spec_parse_args(body@, at, n_args as nat) == Err::<Seq<Seq<u8>>, Error>(e));
                return Err(ParseCommandError::Protocol(e));
            },
        };
        n_args -= 1;
        args.push(arg);
        proof {
            assert(views(args@) =~= before + seq![arg@]);
            match spec_parse_args(body@, reader.position(), n_args as nat) {
                Ok(rest) => {
                    assert(before + (seq![arg@] + rest) =~= views(args@) + rest);
                },
                Err(_) => {},
            }
        }
    }
    proof {
        assert(views(args@) + Seq::<Seq<u8>>::empty() =~= views(args@));
    }
    Ok(args)
}

/// The name `get`.
pub open spec fn get_name() -> Seq<u8> {
    seq![0x67u8, 0x65u8, 0x74u8]
}

/// The name `set`.
pub open spec fn set_name() -> Seq<u8> {
    seq![0x73u8, 0x65u8, 0x74u8]
}

/// The name `del`.
pub open spec fn del_name() -> Seq<u8> {
    seq![0x64u8, 0x65u8, 0x6cu8]
}

/// Whether `value` is the three bytes `a`, `b`, `c`.
fn is_word(value: &[u8], a: u8, b: u8, c: u8) -> (same: bool)
    ensures
        same == (value@ == seq![a, b, c]),
{
    if value.len() == 3 && value[0] == a && value[1] == b && value[2] == c {
        assert(value@ =~= seq![a, b, c]);
        true
    } else {
        false
    }
}

/// Whether `value` is `get`.
pub fn is_get(value: &[u8]) -> (same: bool)
    ensures
        same == (value@ == get_name()),
{
    is_word(value, 0x67, 0x65, 0x74)
}

/// Whether `value` is `set`.
pub fn is_set(value: &[u8]) -> (same: bool)
    ensures
        same == (value@ == set_name()),
{
    is_word(value, 0x73, 0x65, 0x74)
}

/// Whether `value` is `del`.
pub fn is_del(value: &[u8]) -> (same: bool)
    ensures
        same == (value@ == del_name()),
{
    is_word(value, 0x64, 0x65, 0x6c)
}

/// Whether `value` names a command: `get`, `set` or `del`, in lower case.
pub fn is_valid(value: &[u8]) -> (known: bool)
    ensures
        known == (value@ == get_name() || value@ == set_name() || value@ == del_name()),
{
    is_get(value) || is_set(value) || is_del(value)
}

/// Each argument as a string value.
pub open spec fn string_values(args: Seq<Seq<u8>>) -> Seq<Value> {
    Seq::new(args.len(), |i: int| Value::Str(args[i]))
}

/// The values of the request that carries `args`: their number as an
/// integer value, then each as a string value.
pub open spec fn request_values(args: Seq<Seq<u8>>) -> Seq<Value> {
    seq![Value::Int(args.len() as u64)] + string_values(args)
}

/// Strings that were written one after the other parse back as themselves.
proof fn lemma_parse_args_of_encoding(before: Seq<u8>, args: Seq<Seq<u8>>, after: Seq<u8>)
    requires
        forall|i: int| 0 <= i < args.len() ==> (#[trigger] args[i]).len() <= u32::MAX,
    ensures
        spec_parse_args(
            before + encode_values(string_values(args)) + after,
            before.len() as int,
            args.len(),
        ) == Ok::<Seq<Seq<u8>>, Error>(args),
    decreases args.len(),
{
    let values = string_values(args);
    let input = before + encode_values(values) + after;
    if args.len() > 0 {
        let head = Value::Str(args[0]).encoding();
        let tail = args.skip(1);
        assert(values.skip(1) =~= string_values(tail));
        assert(values[0] == Value::Str(args[0]));
        assert(encode_values(values) == head + encode_values(string_values(tail)));
        assert(input =~= before + head + (encode_values(string_values(tail)) + after));
        lemma_read_string_of_encoding(before, args[0], encode_values(string_values(tail)) + after);
        assert(input =~= (before + head) + encode_values(string_values(tail)) + after);
        lemma_parse_args_of_encoding(before + head, tail, after);
        assert(seq![args[0]] + tail =~= args);
        Value::Str(args[0]).lemma_encoded_len();
        assert(spec_read_string(input, before.len() as int) == (
            Ok::<Seq<u8>, Error>(args[0]),
            (before + head).len() as int,
        ));
    } else {
        assert(args =~= Seq::<Seq<u8>>::empty());
    }
}

/// A request that was written for some arguments parses to those arguments.
pub proof fn lemma_parse_request(args: Seq<Seq<u8>>)
    requires
        args.len() <= u64::MAX,
        forall|i: int| 0 <= i < args.len() ==> (#[trigger] args[i]).len() <= u32::MAX,
    ensures
        spec_parse(encode_values(request_values(args))) == Ok::<Seq<Seq<u8>>, ParseCommandError>(
            args,
        ),
{
    let n = args.len() as u64;
    let head = Value::Int(n).encoding();
    let strings = encode_values(string_values(args));
    let body = encode_values(request_values(args));
    assert(body == head + strings) by {
        assert(request_values(args).skip(1) =~= string_values(args));
        assert(request_values(args)[0] == Value::Int(n));
    }
    assert(spec_read_int(body, 0) == (Ok::<u64, Error>(n), 9int)) by {
        lemma_read_int_of_encoding(Seq::empty(), n, strings);
        assert(Seq::<u8>::empty() + head + strings =~= head + strings);
    }
    assert(spec_parse_args(body, 9, n as nat) == Ok::<Seq<Seq<u8>>, Error>(args)) by {
        Value::Int(n).lemma_encoded_len();
        lemma_parse_args_of_encoding(head, args, Seq::empty());
        assert(head + strings + Seq::<u8>::empty() =~= head + strings);
    }
}

} // verus!
