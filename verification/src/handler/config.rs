//! `CONFIG GET dir` and `CONFIG GET dbfilename`.

use vstd::prelude::*;
use crate::handler::error::{argument, argument_at, reply_agrees, CommandError};
use crate::protocol::r_object::{lemma_views, views, RObject, Value};
use crate::protocol::text::same_text;
use crate::state::State;

verus! {

/// A setting as a value: a bulk string, or the null string where it is not set.
pub open spec fn setting_value(setting: Option<String>) -> Value {
    match setting {
        Some(s) => Value::BulkString(s@),
        None => Value::NullBulkString,
    }
}

/// What `CONFIG` replies: for `GET dir` and `GET dbfilename`, the name of the
/// setting and what it is set to.
pub open spec fn config_reply(args: Seq<Value>, state: State) -> Result<Value, CommandError> {
    match argument(args, 1) {
        Ok(command) => match argument(args, 2) {
            Ok(target) => if command != "GET"@ {
                Err(CommandError::InvalidArgument)
            } else if target == "dir"@ {
                Ok(Value::Array(seq![Value::BulkString("dir"@), setting_value(state.dir)]))
            } else if target == "dbfilename"@ {
                Ok(
                    Value::Array(
                        seq![Value::BulkString("dbfilename"@), setting_value(state.dbfilename)],
                    ),
                )
            } else {
                Err(CommandError::InvalidArgument)
            },
            Err(e) => Err(e),
        },
        Err(e) => Err(e),
    }
}

/// The reply that names a setting and tells what it is set to.
fn setting_reply(name: &str, setting: &Option<String>) -> (r: RObject)
    ensures
        r@ == Value::Array(seq![Value::BulkString(name@), setting_value(*setting)]),
{
    let value = match setting {
        Some(s) => RObject::BulkString(s.clone()),
        None => RObject::NullBulkString,
    };
    let mut items: Vec<RObject> = Vec::new();
    items.push(RObject::bulk(name));
    items.push(value);
    proof {
        lemma_views(items@);
        assert(views(items@) =~= seq![Value::BulkString(name@), setting_value(*setting)]);
    }
    RObject::Array(items)
}

/// `CONFIG GET dir` and `CONFIG GET dbfilename`: reply with the name of the
/// setting and what it is set to.
pub fn handle_config(args: &Vec<RObject>, state: &State) -> (r: Result<RObject, CommandError>)
    ensures
        reply_agrees(r, config_reply(views(args@), *state)),
{
    match argument_at(args, 1) {
        Ok(command) => match argument_at(args, 2) {
            Ok(target) => if !same_text(command.as_str(), "GET") {
                Err(CommandError::InvalidArgument)
            } else if same_text(target.as_str(), "dir") {
                Ok(setting_reply("dir", &state.dir))
            } else if same_text(target.as_str(), "dbfilename") {
                Ok(setting_reply("dbfilename", &state.dbfilename))
            } else {
                Err(CommandError::InvalidArgument)
            },
            Err(e) => Err(e),
        },
        Err(e) => Err(e),
    }
}

} // verus!
