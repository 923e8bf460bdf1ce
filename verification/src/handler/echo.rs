//! `ECHO text`.

use vstd::prelude::*;
use crate::handler::error::{argument, argument_at, reply_agrees, CommandError};
use crate::protocol::r_object::{views, RObject, Value};

verus! {

/// What `ECHO` replies: its argument, as a bulk string.
pub open spec fn echo_reply(args: Seq<Value>) -> Result<Value, CommandError> {
    match argument(args, 1) {
        Ok(text) => Ok(Value::BulkString(text)),
        Err(e) => Err(e),
    }
}

/// `ECHO text`: replies with the text.
pub fn handle_echo(args: &Vec<RObject>) -> (r: Result<RObject, CommandError>)
    ensures
        reply_agrees(r, echo_reply(views(args@))),
{
    match argument_at(args, 1) {
        Ok(text) => Ok(RObject::BulkString(text.clone())),
        Err(e) => Err(e),
    }
}

} // verus!
