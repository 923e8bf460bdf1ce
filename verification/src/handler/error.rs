//! What can be wrong with a command.

use vstd::prelude::*;
use vstd::string::StringExecFns;
use crate::protocol::r_object::{RObject, Value};

verus! {

/// Why a frame that decoded well was not carried out. The requester gets an
/// error reply, and its connection goes on.
#[derive(Debug, Clone, Copy, PartialEq, Eq, Structural)]
pub enum CommandError {
    /// The frame is not an array of strings with a name in front.
    NotACommand,
    /// No command has this name.
    UnknownCommand,
    /// An argument that the command needs is missing.
    WrongArity,
    /// An argument is not a bulk string.
    WrongType,
    /// An argument is a bulk string that the command cannot use: not a number
    /// where one is due, or not one of the words the command knows.
    InvalidArgument,
}

impl CommandError {
    /// The text of the error reply.
    pub open spec fn text(self) -> Seq<char> {
        match self {
            CommandError::NotACommand => "ERR expected an array of strings"@,
            CommandError::UnknownCommand => "ERR unknown command"@,
            CommandError::WrongArity => "ERR wrong number of arguments"@,
            CommandError::WrongType => "ERR expected a bulk string"@,
            CommandError::InvalidArgument => "ERR invalid argument"@,
        }
    }

    /// The error reply: a simple error that holds the text of the error.
    pub open spec fn reply(self) -> Value {
        Value::SimpleError(self.text())
    }

    /// The text of the error reply.
    pub fn to_string(&self) -> (r: String)
        ensures
            r@ == self.text(),
    {
        match self {
            CommandError::NotACommand => String::from_str("ERR expected an array of strings"),
            CommandError::UnknownCommand => String::from_str("ERR unknown command"),
            CommandError::WrongArity => String::from_str("ERR wrong number of arguments"),
            CommandError::WrongType => String::from_str("ERR expected a bulk string"),
            CommandError::InvalidArgument => String::from_str("ERR invalid argument"),
        }
    }

    /// The error reply.
    pub fn to_reply(&self) -> (r: RObject)
        ensures
            r@ == self.reply(),
    {
        RObject::SimpleError(self.to_string())
    }
}

/// An exec reply agrees with what the model says the reply is.
pub open spec fn reply_agrees(r: Result<RObject, CommandError>, model: Result<Value, CommandError>) -> bool {
    match model {
        Ok(v) => r matches Ok(o) && o@ == v,
        Err(k) => r matches Err(e) && e == k,
    }
}

/// The text of the argument at `index`: the argument must be there and be a
/// bulk string.
pub open spec fn argument(args: Seq<Value>, index: int) -> Result<Seq<char>, CommandError> {
    if index < 0 || index >= args.len() {
        Err(CommandError::WrongArity)
    } else {
        match args[index] {
            Value::BulkString(s) => Ok(s),
            _ => Err(CommandError::WrongType),
        }
    }
}

/// Reads the argument at `index` as the text of a bulk string.
pub fn argument_at(args: &Vec<RObject>, index: usize) -> (r: Result<&String, CommandError>)
    ensures
        match argument(crate::protocol::r_object::views(args@), index as int) {
            Ok(s) => r matches Ok(t) && t@ == s,
            Err(k) => r matches Err(e) && e == k,
        },
{
    proof {
        crate::protocol::r_object::lemma_views(args@);
    }
    if index >= args.len() {
        Err(CommandError::WrongArity)
    } else {
        match &args[index] {
            RObject::BulkString(s) => Ok(s),
            _ => Err(CommandError::WrongType),
        }
    }
}

} // verus!
