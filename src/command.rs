use crate::resp::{Resp, Value};
use vstd::prelude::*;
use vstd::utf8::{decode_utf8, encode_utf8, encode_utf8_decode_utf8, valid_utf8};

verus! {

/// A request that the store understands.
#[derive(Debug)]
pub enum Command {
    Ping,
    Echo(Resp),
    Get(String),
    SetKey(String, Resp),
}

/// Mathematical model of a command: keys as characters, values as models.
pub enum CommandView {
    Ping,
    Echo(Value),
    Get(Seq<char>),
    SetKey(Seq<char>, Value),
}

/// Why a well-formed value is not a valid command.
#[derive(Debug, Clone, Copy, PartialEq, Eq, Structural)]
pub enum CommandError {
    /// The command name is not known, or the request has no command name.
    UnknownCommand,
    /// The request is empty, or the command lacks an argument.
    MissingArgument,
    /// The command has more arguments than it takes.
    ExtraArgument,
    /// A key is not a bulk string.
    WrongArgumentType,
    /// A key's bytes are not valid UTF-8.
    InvalidUtf8,
}

impl Command {
    pub open spec fn view(&self) -> CommandView {
        match self {
            Command::Ping => CommandView::Ping,
            Command::Echo(v) => CommandView::Echo(v@),
            Command::Get(k) => CommandView::Get(k@),
            Command::SetKey(k, v) => CommandView::SetKey(k@, v@),
        }
    }
}

/// The ASCII upper case of a byte; other bytes stay as they are.
pub open spec fn ascii_upper(b: u8) -> u8 {
    if 97 <= b <= 122 {
        (b - 32) as u8
    } else {
        b
    }
}

/// `name` spells `word` (given in upper case), in any mix of ASCII cases.
pub open spec fn names_match(name: Seq<u8>, word: Seq<u8>) -> bool {
    name.len() == word.len() && forall|i: int| 0 <= i < name.len() ==> ascii_upper(#[trigger] name[i]) == word[i]
}

pub open spec fn word_ping() -> Seq<u8> {
    seq![80u8, 73, 78, 71]
}

pub open spec fn word_echo() -> Seq<u8> {
    seq![69u8, 67, 72, 79]
}

pub open spec fn word_get() -> Seq<u8> {
    seq![71u8, 69, 84]
}

pub open spec fn word_set() -> Seq<u8> {
    seq![83u8, 69, 84]
}

/// The key that an argument stands for.
pub open spec fn key_spec(arg: Value) -> Result<Seq<char>, CommandError> {
    match arg {
        Value::Bulk(Some(b)) => if valid_utf8(b) {
            Ok(decode_utf8(b))
        } else {
            Err(CommandError::InvalidUtf8)
        },
        _ => Err(CommandError::WrongArgumentType),
    }
}

/// The command that a request stands for.
pub open spec fn parse_spec(msg: Value) -> Result<CommandView, CommandError> {
    match msg {
        Value::Simple(s) => if names_match(s, word_ping()) {
            Ok(CommandView::Ping)
        } else {
            Err(CommandError::UnknownCommand)
        },
        Value::Array(Some(items)) => if items.len() == 0 {
            Err(CommandError::MissingArgument)
        } else {
            match items[0] {
                Value::Bulk(Some(name)) => if names_match(name, word_ping()) {
                    Ok(CommandView::Ping)
                } else if names_match(name, word_echo()) {
                    if items.len() < 2 {
                        Err(CommandError::MissingArgument)
                    } else if items.len() > 2 {
                        Err(CommandError::ExtraArgument)
                    } else {
                        Ok(CommandView::Echo(items[1]))
                    }
                } else if names_match(name, word_get()) {
                    if items.len() < 2 {
                        Err(CommandError::MissingArgument)
                    } else if items.len() > 2 {
                        Err(CommandError::ExtraArgument)
                    } else {
                        match key_spec(items[1]) {
                            Ok(k) => Ok(CommandView::Get(k)),
                            Err(err) => Err(err),
                        }
                    }
                } else if names_match(name, word_set()) {
                    if items.len() < 3 {
                        Err(CommandError::MissingArgument)
                    } else if items.len() > 3 {
                        Err(CommandError::ExtraArgument)
                    } else {
                        match key_spec(items[1]) {
                            Ok(k) => Ok(CommandView::SetKey(k, items[2])),
                            Err(err) => Err(err),
                        }
                    }
                } else {
                    Err(CommandError::UnknownCommand)
                },
                _ => Err(CommandError::UnknownCommand),
            }
        },
        _ => Err(CommandError::UnknownCommand),
    }
}

/// Relies on `String::from_utf8`: it accepts exactly the valid UTF-8 byte sequences, and the
/// string it returns holds those very bytes.
#[verifier::external_body]
fn utf8_string(bytes: &Vec<u8>) -> (r: Option<String>)
    ensures
        r is Some <==> valid_utf8(bytes@),
        r matches Some(s) ==> encode_utf8(s@) == bytes@,
{
    String::from_utf8(bytes.clone()).ok()
}

/// Whether `name` spells `word` in any mix of ASCII cases.
fn name_is(name: &Vec<u8>, word: &[u8]) -> (r: bool)
    ensures
        r == names_match(name@, word@),
{
    if name.len() != word.len() {
        return false;
    }
    let mut i: usize = 0;
    while i < name.len()
        invariant
            name@.len() == word@.len(),
            i <= name@.len(),
            forall|j: int| 0 <= j < i ==> ascii_upper(#[trigger] name@[j]) == word@[j],
        decreases name@.len() - i,
    {
        let b = name[i];
        let up: u8 = if 97 <= b && b <= 122 {
            b - 32
        } else {
            b
        };
        if up != word[i] {
            return false;
        }
        i = i + 1;
    }
    true
}

/// The key held by a request argument.
fn key_of(arg: &Resp) -> (r: Result<String, CommandError>)
    ensures
        (match r {
            Ok(k) => Ok(k@),
            Err(err) => Err(err),
        }) == key_spec(arg@),
{
    match arg {
        Resp::BulkString(Some(b)) => match utf8_string(b) {
            Some(s) => {
                proof {
                    encode_utf8_decode_utf8(s@);
                }
                Ok(s)
            },
            None => Err(CommandError::InvalidUtf8),
        },
        _ => Err(CommandError::WrongArgumentType),
    }
}

impl Command {
    /// The command that a decoded request stands for.
    pub fn parse(msg: &Resp) -> (r: Result<Command, CommandError>)
        ensures
            (match r {
                Ok(c) => Ok(c@),
                Err(err) => Err(err),
            }) == parse_spec(msg@),
    {
        let ping: [u8; 4] = [80, 73, 78, 71];
        let echo: [u8; 4] = [69, 67, 72, 79];
        let get: [u8; 3] = [71, 69, 84];
        let set: [u8; 3] = [83, 69, 84];
        assert(ping@ == word_ping());
        assert(echo@ == word_echo());
        assert(get@ == word_get());
        assert(set@ == word_set());
        match msg {
            Resp::SimpleString(s) => {
                if name_is(s, ping.as_slice()) {
                    Ok(Command::Ping)
                } else {
                    Err(CommandError::UnknownCommand)
                }
            },
            Resp::Array(Some(items)) => {
                proof {
                    msg.lemma_array_view();
                }
                if items.len() == 0 {
                    return Err(CommandError::MissingArgument);
                }
                let name = match &items[0] {
                    Resp::BulkString(Some(name)) => name,
                    _ => {
                        return Err(CommandError::UnknownCommand);
                    },
                };
                if name_is(name, ping.as_slice()) {
                    Ok(Command::Ping)
                } else if name_is(name, echo.as_slice()) {
                    if items.len() < 2 {
                        Err(CommandError::MissingArgument)
                    } else if items.len() > 2 {
                        Err(CommandError::ExtraArgument)
                    } else {
                        Ok(Command::Echo(items[1].clone()))
                    }
                } else if name_is(name, get.as_slice()) {
                    if items.len() < 2 {
                        Err(CommandError::MissingArgument)
                    } else if items.len() > 2 {
                        Err(CommandError::ExtraArgument)
                    } else {
                        match key_of(&items[1]) {
                            Ok(k) => Ok(Command::Get(k)),
                            Err(err) => Err(err),
                        }
                    }
                } else if name_is(name, set.as_slice()) {
                    if items.len() < 3 {
                        Err(CommandError::MissingArgument)
                    } else if items.len() > 3 {
                        Err(CommandError::ExtraArgument)
                    } else {
                        match key_of(&items[1]) {
                            Ok(k) => Ok(Command::SetKey(k, items[2].clone())),
                            Err(err) => Err(err),
                        }
                    }
                } else {
                    Err(CommandError::UnknownCommand)
                }
            },
            _ => Err(CommandError::UnknownCommand),
        }
    }
}

} // verus!
