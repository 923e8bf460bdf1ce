//! `GET key`.

use vstd::prelude::*;
use crate::handler::error::{argument, argument_at, reply_agrees, CommandError};
use crate::protocol::r_object::{views, RObject, Value};
use crate::store::{Store, StoreView};

verus! {

/// What `GET` replies: the value under the key, or null where there is none.
pub open spec fn get_reply(args: Seq<Value>, store: StoreView) -> Result<Value, CommandError> {
    match argument(args, 1) {
        Ok(key) => match store.get(key) {
            Some(v) => Ok(v),
            None => Ok(Value::Null),
        },
        Err(e) => Err(e),
    }
}

/// `GET key`: replies with the value under the key, or with null.
pub fn handle_get(args: &Vec<RObject>, storage: &Store) -> (r: Result<RObject, CommandError>)
    ensures
        reply_agrees(r, get_reply(views(args@), storage@)),
{
    match argument_at(args, 1) {
        Ok(key) => match storage.get(key.as_str()) {
            Some(v) => Ok(v),
            None => Ok(RObject::Null),
        },
        Err(e) => Err(e),
    }
}

} // verus!
