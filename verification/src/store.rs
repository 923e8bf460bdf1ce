//! The key-value store.
//!
//! Every write gives its entry a version that no write gave before. A deferred
//! expiry names the version it was scheduled for and removes the entry only
//! while that version is still the one stored, so an expiry that comes late
//! never removes what a later write put there.

use vstd::prelude::*;
use vstd::hash_map::StringHashMap;
use crate::protocol::r_object::{RObject, Value};

verus! {

/// What the store holds under a key.
struct Entry {
    value: RObject,
    /// The number of the write that put the value there.
    version: u64,
}

/// A deferred removal: after `millis` milliseconds, remove the entry under
/// `key` if it is still the one that write number `version` put there.
pub struct Expiry {
    pub key: String,
    pub version: u64,
    pub millis: u64,
}

/// The store: entries by key, and the number that the next write takes. Every
/// entry carries the number of a write that has taken place.
pub struct Store {
    entries: StringHashMap<Entry>,
    next_version: u64,
}

/// The mathematical model of a store.
pub struct StoreView {
    /// Under each key, the value and the number of the write that put it there.
    pub entries: Map<Seq<char>, (Value, nat)>,
    pub next_version: nat,
}

impl StoreView {
    /// Every entry was written by a write that has taken place.
    pub open spec fn wf(self) -> bool {
        forall|k: Seq<char>| #[trigger]
            self.entries.contains_key(k) ==> self.entries[k].1 < self.next_version
    }

    /// The value under `key`, if there is one.
    pub open spec fn get(self, key: Seq<char>) -> Option<Value> {
        if self.entries.contains_key(key) {
            Some(self.entries[key].0)
        } else {
            None
        }
    }

    /// The store after a write of `value` under `key`.
    pub open spec fn set(self, key: Seq<char>, value: Value) -> StoreView {
        StoreView {
            entries: self.entries.insert(key, (value, self.next_version)),
            next_version: self.next_version + 1,
        }
    }

    /// The store without an entry under `key`.
    pub open spec fn delete(self, key: Seq<char>) -> StoreView {
        StoreView { entries: self.entries.remove(key), next_version: self.next_version }
    }

    /// The expiry scheduled for write number `version` finds that write's entry
    /// still under `key`.
    pub open spec fn expires(self, key: Seq<char>, version: nat) -> bool {
        self.entries.contains_key(key) && self.entries[key].1 == version
    }

    /// The store after the expiry scheduled for write number `version` under
    /// `key` has come due.
    pub open spec fn expire(self, key: Seq<char>, version: nat) -> StoreView {
        if self.expires(key, version) {
            self.delete(key)
        } else {
            self
        }
    }
}

impl View for Store {
    type V = StoreView;

    closed spec fn view(&self) -> StoreView {
        StoreView {
            entries: Map::new(
                |k: Seq<char>| self.entries@.contains_key(k),
                |k: Seq<char>| (self.entries@[k].value@, self.entries@[k].version as nat),
            ),
            next_version: self.next_version as nat,
        }
    }
}

impl Store {
    /// What every store keeps to: its entries carry the numbers of writes that
    /// have taken place.
    #[verifier::type_invariant]
    spec fn keeps_versions(self) -> bool {
        self@.wf()
    }

    /// An empty store.
    pub fn new() -> (store: Store)
        ensures
            store@.wf(),
            store@.entries == Map::<Seq<char>, (Value, nat)>::empty(),
            store@.next_version == 0,
    {
        let store = Store { entries: StringHashMap::new(), next_version: 0 };
        assert(store@.entries =~= Map::<Seq<char>, (Value, nat)>::empty());
        store
    }

    /// The number that the next write takes.
    pub fn version(&self) -> (v: u64)
        ensures
            v == self@.next_version,
            self@.wf(),
    {
        proof {
            use_type_invariant(self);
        }
        self.next_version
    }

    /// A copy of the value under `key`, if there is one.
    pub fn get(&self, key: &str) -> (r: Option<RObject>)
        ensures
            match r {
                Some(v) => self@.get(key@) == Some(v@),
                None => self@.get(key@) is None,
            },
    {
        match self.entries.get(key) {
            Some(entry) => Some(entry.value.duplicate()),
            None => None,
        }
    }

    /// Writes `value` under `key` and returns the number of the write.
    pub fn set(&mut self, key: String, value: RObject) -> (version: u64)
        requires
            old(self)@.next_version < u64::MAX,
        ensures
            final(self)@ == old(self)@.set(key@, value@),
            final(self)@.wf(),
            version == old(self)@.next_version,
    {
        proof {
            use_type_invariant(&*self);
        }
        let version = self.next_version;
        let ghost key_view = key@;
        let ghost value_view = value@;
        let ghost before = self@;
        let mut entries = StringHashMap::new();
        core::mem::swap(&mut entries, &mut self.entries);
        entries.insert(key, Entry { value, version });
        proof {
            assert forall|k: Seq<char>| #[trigger]
                entries@.contains_key(k) implies entries@[k].version < version + 1 by {
                if k != key_view {
                    assert(before.entries.contains_key(k));
                    assert(before.entries[k].1 < before.next_version);
                }
            }
        }
        let after = Store { entries, next_version: version + 1 };
        proof {
            assert(after@.entries =~= before.set(key_view, value_view).entries);
        }
        *self = after;
        version
    }

    /// Writes `value` under `key` and returns the removal to carry out after
    /// `millis` milliseconds.
    pub fn set_with_expiry(&mut self, key: String, value: RObject, millis: u64) -> (expiry:
        Expiry)
        requires
            old(self)@.next_version < u64::MAX,
        ensures
            final(self)@ == old(self)@.set(key@, value@),
            final(self)@.wf(),
            expiry.key@ == key@,
            expiry.version == old(self)@.next_version,
            expiry.millis == millis,
    {
        let name = key.clone();
        let version = self.set(key, value);
        Expiry { key: name, version, millis }
    }

    /// Removes the entry under `key`, if there is one.
    pub fn delete(&mut self, key: &str)
        ensures
            final(self)@ == old(self)@.delete(key@),
            final(self)@.wf(),
    {
        proof {
            use_type_invariant(&*self);
        }
        let ghost before = self@;
        let mut entries = StringHashMap::new();
        core::mem::swap(&mut entries, &mut self.entries);
        entries.remove(key);
        proof {
            assert forall|k: Seq<char>| #[trigger]
                entries@.contains_key(k) implies entries@[k].version < self.next_version by {
                assert(before.entries.contains_key(k));
                assert(before.entries[k].1 < before.next_version);
            }
        }
        let after = Store { entries, next_version: self.next_version };
        proof {
            assert(after@.entries =~= before.delete(key@).entries);
        }
        *self = after;
    }

    /// Carries out a deferred removal: removes the entry under the key only if
    /// it is still the one the removal was scheduled for. Tells whether it
    /// removed anything.
    pub fn expire(&mut self, expiry: &Expiry) -> (removed: bool)
        ensures
            final(self)@ == old(self)@.expire(expiry.key@, expiry.version as nat),
            final(self)@.wf(),
            removed == old(self)@.expires(expiry.key@, expiry.version as nat),
    {
        proof {
            use_type_invariant(&*self);
        }
        let due = match self.entries.get(expiry.key.as_str()) {
            Some(entry) => entry.version == expiry.version,
            None => false,
        };
        if due {
            self.delete(expiry.key.as_str());
        }
        due
    }
}

/// What is read under a key is what was last written there.
pub proof fn law_get_after_set(s: StoreView, key: Seq<char>, first: Value, second: Value)
    ensures
        s.set(key, first).get(key) == Some(first),
        s.set(key, first).set(key, second).get(key) == Some(second),
{
}

/// An expiry that comes due while its write is still the last one under the
/// key removes the entry: nothing is read there afterwards.
pub proof fn law_expiry_removes(s: StoreView, key: Seq<char>, value: Value)
    ensures
        s.set(key, value).expire(key, s.next_version).get(key) is None,
{
}

/// An expiry that comes due after the key was written again leaves the later
/// value in place.
pub proof fn law_overwrite_outlives_expiry(
    s: StoreView,
    key: Seq<char>,
    first: Value,
    second: Value,
)
    ensures
        s.set(key, first).set(key, second).expire(key, s.next_version) == s.set(key, first).set(
            key,
            second,
        ),
        s.set(key, first).set(key, second).expire(key, s.next_version).get(key) == Some(second),
{
}

/// One operation on a store.
pub enum Operation {
    Write(Seq<char>, Value),
    Delete(Seq<char>),
    Expire(Seq<char>, nat),
}

impl StoreView {
    /// The store after one operation.
    pub open spec fn apply(self, op: Operation) -> StoreView {
        match op {
            Operation::Write(key, value) => self.set(key, value),
            Operation::Delete(key) => self.delete(key),
            Operation::Expire(key, version) => self.expire(key, version),
        }
    }

    /// The store after a sequence of operations, first to last.
    pub open spec fn apply_all(self, ops: Seq<Operation>) -> StoreView
        decreases ops.len(),
    {
        if ops.len() == 0 {
            self
        } else {
            self.apply_all(ops.drop_last()).apply(ops.last())
        }
    }
}

/// Whatever happens to a store after a write, the entry that carries the number
/// of that write holds the value of that write: an expiry scheduled for the
/// write can remove that value and no other.
pub proof fn law_expiry_removes_only_its_write(
    s: StoreView,
    key: Seq<char>,
    value: Value,
    ops: Seq<Operation>,
)
    requires
        s.wf(),
    ensures
        ({
            let later = s.set(key, value).apply_all(ops);
            &&& later.wf()
            &&& later.next_version > s.next_version
            &&& forall|k: Seq<char>|
                later.entries.contains_key(k) && (#[trigger] later.entries[k]).1 == s.next_version
                    ==> k == key && later.entries[k].0 == value
        }),
    decreases ops.len(),
{
    if ops.len() > 0 {
        law_expiry_removes_only_its_write(s, key, value, ops.drop_last());
    }
}

} // verus!
