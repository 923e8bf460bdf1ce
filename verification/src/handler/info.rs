//! `INFO replication`.

use vstd::prelude::*;
use vstd::string::StringExecFns;
use crate::handler::error::{argument, argument_at, reply_agrees, CommandError};
use crate::protocol::r_object::{views, RObject, Value};
use crate::protocol::text::same_text;
use crate::state::{ServerRole, State};

verus! {

/// The line that reports the role.
pub open spec fn role_line(role: ServerRole) -> Seq<char> {
    "role:"@ + role.name() + "\n"@
}

/// What `INFO` replies: for the section `replication`, the role of the node.
pub open spec fn info_reply(args: Seq<Value>, role: ServerRole) -> Result<Value, CommandError> {
    match argument(args, 1) {
        Ok(section) => if section == "replication"@ {
            Ok(Value::BulkString(role_line(role)))
        } else {
            Err(CommandError::InvalidArgument)
        },
        Err(e) => Err(e),
    }
}

/// `INFO replication`: replies with the role of the node.
pub fn handle_info(args: &Vec<RObject>, config: &State) -> (r: Result<RObject, CommandError>)
    ensures
        reply_agrees(r, info_reply(views(args@), config.role)),
{
    match argument_at(args, 1) {
        Ok(section) => if same_text(section.as_str(), "replication") {
            let line = String::from_str("role:").concat(config.role.to_string().as_str()).concat(
                "\n",
            );
            Ok(RObject::BulkString(line))
        } else {
            Err(CommandError::InvalidArgument)
        },
        Err(e) => Err(e),
    }
}

} // verus!
