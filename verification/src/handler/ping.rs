//! `PING`.

use vstd::prelude::*;
use crate::protocol::r_object::{RObject, Value};

verus! {

/// What `PING` replies.
pub open spec fn ping_reply() -> Value {
    Value::SimpleString("PONG"@)
}

/// `PING`: replies `PONG`.
pub fn handle_ping() -> (reply: RObject)
    ensures
        reply@ == ping_reply(),
{
    RObject::simple("PONG")
}

} // verus!
