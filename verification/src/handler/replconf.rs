//! `REPLCONF`: what a replica tells its master, and what it answers to a probe.

use vstd::prelude::*;
use vstd::string::StringExecFns;
use crate::handler::error::{argument, argument_at, CommandError};
use crate::protocol::r_object::{command_of, views, RObject, Value};
use crate::protocol::text::{decimal_chars, decimal_string, same_text};
use crate::state::State;

verus! {

/// The acknowledgment of an offset.
pub open spec fn ack_command(offset: u64) -> Value {
    command_of(seq!["REPLCONF"@, "ACK"@, decimal_chars(offset as int)])
}

/// What `REPLCONF` replies: `OK` to `listening-port` and to `capa`; to
/// `GETACK` the acknowledgment of the offset that the node has reached; to
/// `ACK`, which is itself an answer, nothing.
pub open spec fn replconf_reply(args: Seq<Value>, consumed: u64) -> Result<
    Option<Value>,
    CommandError,
> {
    match argument(args, 1) {
        Ok(target) => if target == "listening-port"@ || target == "capa"@ {
            Ok(Some(Value::SimpleString("OK"@)))
        } else if target == "GETACK"@ {
            Ok(Some(ack_command(consumed)))
        } else if target == "ACK"@ {
            Ok(None)
        } else {
            Err(CommandError::InvalidArgument)
        },
        Err(e) => Err(e),
    }
}

/// An exec reply agrees with what the model says the reply is.
pub open spec fn replconf_agrees(
    r: Result<Option<RObject>, CommandError>,
    model: Result<Option<Value>, CommandError>,
) -> bool {
    match model {
        Ok(Some(v)) => r matches Ok(Some(o)) && o@ == v,
        Ok(None) => r matches Ok(None),
        Err(k) => r matches Err(e) && e == k,
    }
}

/// `REPLCONF`: takes note of what a replica announces, and answers a probe
/// with the node's offset.
pub fn handle_replconf(args: &Vec<RObject>, state: &State) -> (r: Result<
    Option<RObject>,
    CommandError,
>)
    ensures
        replconf_agrees(r, replconf_reply(views(args@), state.consumed)),
{
    match argument_at(args, 1) {
        Ok(target) => {
            let target = target.as_str();
            if same_text(target, "listening-port") || same_text(target, "capa") {
                Ok(Some(RObject::simple("OK")))
            } else if same_text(target, "GETACK") {
                let mut words: Vec<String> = Vec::new();
                words.push(String::from_str("REPLCONF"));
                words.push(String::from_str("ACK"));
                words.push(decimal_string(state.consumed));
                proof {
                    assert(Seq::new(words@.len(), |i: int| words@[i]@) =~= seq![
                        "REPLCONF"@,
                        "ACK"@,
                        decimal_chars(state.consumed as int),
                    ]);
                }
                Ok(Some(RObject::command(words)))
            } else if same_text(target, "ACK") {
                Ok(None)
            } else {
                Err(CommandError::InvalidArgument)
            }
        },
        Err(e) => Err(e),
    }
}

} // verus!
