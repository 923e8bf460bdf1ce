//! `SET key value [PX milliseconds]`.

use vstd::prelude::*;
use vstd::string::StrSliceExecFns;
use vstd::utf8::*;
use crate::handler::error::{argument, argument_at, CommandError};
use crate::protocol::number::decimal_u64;
use crate::protocol::r_object::{lemma_views, views, RObject, Value};
use crate::protocol::text::parse_u64_text;
use crate::store::{Expiry, Store, StoreView};

verus! {

/// The word `PX`, in any mix of capitals.
pub open spec fn is_px(word: Seq<char>) -> bool {
    &&& word.len() == 2
    &&& (word[0] == 'p' || word[0] == 'P')
    &&& (word[1] == 'x' || word[1] == 'X')
}

/// The expiry that the arguments ask for, in milliseconds: the fifth word,
/// where the fourth is `PX` and both are bulk strings. A fifth word that is no
/// unsigned numeral is an error.
pub open spec fn set_expiry(args: Seq<Value>) -> Result<Option<u64>, CommandError> {
    if args.len() >= 5 && args[3] is BulkString && is_px(args[3]->BulkString_0)
        && args[4] is BulkString {
        match decimal_u64(encode_utf8(args[4]->BulkString_0)) {
            Some(millis) => Ok(Some(millis)),
            None => Err(CommandError::InvalidArgument),
        }
    } else {
        Ok(None)
    }
}

/// What a `SET` does.
pub struct SetEffect {
    /// The store after the write.
    pub store: StoreView,
    /// The removal to carry out later: the key, the number of the write, and
    /// the delay in milliseconds.
    pub expiry: Option<(Seq<char>, nat, u64)>,
}

/// What `SET` does: it writes the third word under the key that the second
/// names, and asks for the removal of that write where `PX` gives a delay.
/// Where the arguments are wrong, nothing is written.
pub open spec fn set_effect(args: Seq<Value>, store: StoreView) -> Result<SetEffect, CommandError> {
    if args.len() < 3 {
        Err(CommandError::WrongArity)
    } else {
        match argument(args, 1) {
            Ok(key) => match set_expiry(args) {
                Ok(delay) => Ok(
                    SetEffect {
                        store: store.set(key, args[2]),
                        expiry: match delay {
                            Some(millis) => Some((key, store.next_version, millis)),
                            None => None,
                        },
                    },
                ),
                Err(e) => Err(e),
            },
            Err(e) => Err(e),
        }
    }
}

/// What `SET` replies.
pub open spec fn set_reply() -> Value {
    Value::SimpleString("OK"@)
}

/// What a `SET` that was carried out hands back.
pub struct SetOutcome {
    pub reply: RObject,
    /// The removal to carry out later, where the command asked for one.
    pub expiry: Option<Expiry>,
}

/// An exec outcome agrees with what the model says the command does.
pub open spec fn set_agrees(
    r: Result<SetOutcome, CommandError>,
    after: StoreView,
    model: Result<SetEffect, CommandError>,
    before: StoreView,
) -> bool {
    match model {
        Ok(effect) => {
            &&& r matches Ok(out)
            &&& out.reply@ == set_reply()
            &&& after == effect.store
            &&& match effect.expiry {
                Some((key, version, millis)) => out.expiry matches Some(e) && e.key@ == key
                    && e.version == version && e.millis == millis,
                None => out.expiry is None,
            }
        },
        Err(k) => r matches Err(e) && e == k && after == before,
    }
}

/// Tells whether a word is `PX` in any mix of capitals.
fn is_px_word(word: &str) -> (b: bool)
    ensures
        b == is_px(word@),
{
    if word.unicode_len() != 2 {
        return false;
    }
    let first = word.get_char(0);
    let second = word.get_char(1);
    (first == 'p' || first == 'P') && (second == 'x' || second == 'X')
}

/// Reads the expiry that the arguments ask for.
fn expiry_of(args: &Vec<RObject>) -> (r: Result<Option<u64>, CommandError>)
    ensures
        r == set_expiry(views(args@)),
{
    proof {
        lemma_views(args@);
    }
    if args.len() >= 5 {
        match (&args[3], &args[4]) {
            (RObject::BulkString(word), RObject::BulkString(delay)) => {
                if is_px_word(word.as_str()) {
                    match parse_u64_text(delay.as_str()) {
                        Some(millis) => Ok(Some(millis)),
                        None => Err(CommandError::InvalidArgument),
                    }
                } else {
                    Ok(None)
                }
            },
            _ => Ok(None),
        }
    } else {
        Ok(None)
    }
}

/// `SET key value [PX milliseconds]`: writes the value under the key and
/// replies `OK`. With `PX`, hands back the removal to carry out after the
/// delay.
pub fn handle_set(args: &Vec<RObject>, storage: &mut Store) -> (r: Result<
    SetOutcome,
    CommandError,
>)
    requires
        old(storage)@.next_version < u64::MAX,
    ensures
        set_agrees(r, final(storage)@, set_effect(views(args@), old(storage)@), old(storage)@),
{
    proof {
        lemma_views(args@);
    }
    if args.len() < 3 {
        return Err(CommandError::WrongArity);
    }
    let key = match argument_at(args, 1) {
        Ok(key) => key.clone(),
        Err(e) => {
            return Err(e);
        },
    };
    let delay = match expiry_of(args) {
        Ok(delay) => delay,
        Err(e) => {
            return Err(e);
        },
    };
    let value = args[2].duplicate();
    let expiry = match delay {
        Some(millis) => Some(storage.set_with_expiry(key, value, millis)),
        None => {
            storage.set(key, value);
            None
        },
    };
    Ok(SetOutcome { reply: RObject::simple("OK"), expiry })
}

} // verus!
