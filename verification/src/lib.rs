//! An in-memory key-value server core: the wire codec, the command parser,
//! the incrementally rehashed table behind the keyspace, the per-connection
//! buffers and the connection state machine.

use vstd::prelude::*;
use crate::command::{del_name, get_name, is_del, is_get, is_set, set_name};
use crate::protocol::views;
use crate::text::{lossy_text, utf8_text};

pub use crate::protocol::{BUF_LEN, HEADER_LEN, MAX_MSG_LEN, RESPONSE_CODE_LEN, STRING_LEN};

pub mod bytes;
pub mod text;
pub mod protocol;
pub mod command;
pub mod hash_map;
pub mod connection_buffer;
pub mod executor;
pub mod connection;
pub mod client;
pub mod event_loop;

verus! {

/// The code of an error value.
#[derive(Debug, Clone, Copy, PartialEq, Eq, Structural)]
pub enum ResponseCode {
    Success,
    Unknown,
    Nx,
    TooBig,
}

impl ResponseCode {
    /// The number that stands for the code on the wire.
    pub open spec fn spec_code(self) -> u32 {
        match self {
            ResponseCode::Success => 0,
            ResponseCode::Unknown => 1,
            ResponseCode::Nx => 2,
            ResponseCode::TooBig => 101,
        }
    }

    /// The number that stands for the code on the wire.
    #[verifier::when_used_as_spec(spec_code)]
    pub fn code(self) -> (n: u32)
        ensures
            n == self.spec_code(),
    {
        match self {
            ResponseCode::Success => 0,
            ResponseCode::Unknown => 1,
            ResponseCode::Nx => 2,
            ResponseCode::TooBig => 101,
        }
    }
}

impl ResponseCode {
    /// The code that a number stands for on the wire.
    pub open spec fn spec_decode(n: u32) -> Result<ResponseCode, protocol::Error> {
        if n == 0 {
            Ok(ResponseCode::Success)
        } else if n == 1 {
            Ok(ResponseCode::Unknown)
        } else if n == 2 {
            Ok(ResponseCode::Nx)
        } else if n == 101 {
            Ok(ResponseCode::TooBig)
        } else {
            Err(protocol::Error::InvalidResponseCode(n))
        }
    }

    /// The code that a number stands for on the wire; a number that
    /// stands for none is an `InvalidResponseCode`.
    pub fn decode(n: u32) -> (r: Result<ResponseCode, protocol::Error>)
        ensures
            r == ResponseCode::spec_decode(n),
            r matches Ok(code) ==> code.spec_code() == n,
    {
        if n == 0 {
            Ok(ResponseCode::Success)
        } else if n == 1 {
            Ok(ResponseCode::Unknown)
        } else if n == 2 {
            Ok(ResponseCode::Nx)
        } else if n == 101 {
            Ok(ResponseCode::TooBig)
        } else {
            Err(protocol::Error::InvalidResponseCode(n))
        }
    }
}

impl From<ResponseCode> for u32 {
    fn from(code: ResponseCode) -> (n: u32) {
        code.code()
    }
}

impl vstd::std_specs::convert::FromSpecImpl<ResponseCode> for u32 {
    open spec fn obeys_from_spec() -> bool {
        true
    }

    open spec fn from_spec(code: ResponseCode) -> u32 {
        code.spec_code()
    }
}

impl TryFrom<u32> for ResponseCode {
    type Error = &'static str;

    fn try_from(n: u32) -> (r: Result<Self, Self::Error>) {
        match n {
            0 => Ok(ResponseCode::Success),
            1 => Ok(ResponseCode::Unknown),
            2 => Ok(ResponseCode::Nx),
            101 => Ok(ResponseCode::TooBig),
            _ => Err("invalid response code"),
        }
    }
}

impl vstd::std_specs::convert::TryFromSpecImpl<u32> for ResponseCode {
    open spec fn obeys_try_from_spec() -> bool {
        true
    }

    open spec fn try_from_spec(n: u32) -> Result<Self, Self::Error> {
        if n == 0 {
            Ok(ResponseCode::Success)
        } else if n == 1 {
            Ok(ResponseCode::Unknown)
        } else if n == 2 {
            Ok(ResponseCode::Nx)
        } else if n == 101 {
            Ok(ResponseCode::TooBig)
        } else {
            Err("invalid response code")
        }
    }
}

/// A request for one of the known commands, with the arguments that
/// follow the name.
#[derive(Debug)]
pub enum Command<'a> {
    Get(Vec<&'a [u8]>),
    SetKey(Vec<&'a [u8]>),
    Del(Vec<&'a [u8]>),
}

/// What a `Command` holds, as byte strings.
pub enum CommandView {
    Get(Seq<Seq<u8>>),
    SetKey(Seq<Seq<u8>>),
    Del(Seq<Seq<u8>>),
}

impl<'a> View for Command<'a> {
    type V = CommandView;

    open spec fn view(&self) -> CommandView {
        match self {
            Command::Get(args) => CommandView::Get(views(args@)),
            Command::SetKey(args) => CommandView::SetKey(views(args@)),
            Command::Del(args) => CommandView::Del(views(args@)),
        }
    }
}

/// Why a request body gave no command.
#[derive(Debug)]
pub enum ParseCommandError {
    /// The body is not an integer followed by that many strings.
    InputTooShort,
    /// The body names no known command; the payload is the name, as text.
    UnknownCommand(String),
}

/// What a `ParseCommandError` holds.
pub enum ParseCommandErrorView {
    InputTooShort,
    UnknownCommand(Seq<char>),
}

impl View for ParseCommandError {
    type V = ParseCommandErrorView;

    open spec fn view(&self) -> ParseCommandErrorView {
        match self {
            ParseCommandError::InputTooShort => ParseCommandErrorView::InputTooShort,
            ParseCommandError::UnknownCommand(name) => ParseCommandErrorView::UnknownCommand(name@),
        }
    }
}

/// What `Command::parse` returns on `body`.
pub open spec fn spec_parse_command(body: Seq<u8>) -> Result<CommandView, ParseCommandErrorView> {
    if body.len() == 0 {
        Err(ParseCommandErrorView::UnknownCommand(Seq::empty()))
    } else {
        match command::spec_parse(body) {
            Err(_) => Err(ParseCommandErrorView::InputTooShort),
            Ok(argv) => spec_select(argv),
        }
    }
}

/// The command that the arguments `argv` make, by the name that comes first.
pub open spec fn spec_select(argv: Seq<Seq<u8>>) -> Result<CommandView, ParseCommandErrorView> {
    if argv.len() == 0 {
        Err(ParseCommandErrorView::UnknownCommand(Seq::empty()))
    } else if argv[0] == get_name() {
        Ok(CommandView::Get(argv.skip(1)))
    } else if argv[0] == set_name() {
        Ok(CommandView::SetKey(argv.skip(1)))
    } else if argv[0] == del_name() {
        Ok(CommandView::Del(argv.skip(1)))
    } else {
        Err(ParseCommandErrorView::UnknownCommand(utf8_text(argv[0])))
    }
}

/// The view of what `Command::parse` returns.
pub open spec fn command_view(r: Result<Command<'_>, ParseCommandError>) -> Result<
    CommandView,
    ParseCommandErrorView,
> {
    match r {
        Ok(c) => Ok(c@),
        Err(e) => Err(e@),
    }
}

impl<'a> Command<'a> {
    /// Parses a request body into a command.
    ///
    /// The first argument selects the command, by its name in lower case;
    /// the others go with it. An empty body, and one that announces no
    /// argument, names no command: the error is `UnknownCommand` with an
    /// empty name. Any other body that does not parse gives `InputTooShort`.
    pub fn parse(body: &'a [u8]) -> (r: Result<Self, ParseCommandError>)
        ensures
            command_view(r) == spec_parse_command(body@),
    {
        if body.len() == 0 {
            return Err(ParseCommandError::UnknownCommand(String::new()));
        }
        let mut args = match command::parse(body) {
            Ok(args) => args,
            Err(_) => {
                return Err(ParseCommandError::InputTooShort);
            },
        };
        if args.len() == 0 {
            return Err(ParseCommandError::UnknownCommand(String::new()));
        }
        let ghost argv = views(args@);
        let cmd = args.remove(0);
        assert(views(args@) =~= argv.skip(1));
        if is_get(cmd) {
            Ok(Command::Get(args))
        } else if is_set(cmd) {
            Ok(Command::SetKey(args))
        } else if is_del(cmd) {
            Ok(Command::Del(args))
        } else {
            Err(ParseCommandError::UnknownCommand(lossy_text(cmd)))
        }
    }
}

} // verus!
