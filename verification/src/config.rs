//! What a node is started with.

use vstd::prelude::*;
use crate::state::State;

pub use crate::state::ServerRole;

verus! {

/// The settings that decide whether and how a node joins a master.
pub struct Config {
    pub role: ServerRole,
    pub master_replid: String,
    pub master_repl_offset: u64,
    /// The address of the master to follow; empty for a node that follows none.
    pub replica_of: String,
    pub working_port: u64,
    pub consumed: u64,
}

impl Config {
    /// The state in which a node with these settings starts.
    pub fn into_state(self, dir: Option<String>, dbfilename: Option<String>) -> (state: State)
        ensures
            state.role == self.role,
            state.master_replid == self.master_replid,
            state.master_repl_offset == self.master_repl_offset,
            state.replica_of == (if self.replica_of@.len() == 0 {
                None
            } else {
                Some(self.replica_of)
            }),
            state.working_port == self.working_port,
            state.consumed == self.consumed,
            state.dir == dir,
            state.dbfilename == dbfilename,
    {
        let replica_of = if self.replica_of.as_str().is_empty() {
            None
        } else {
            Some(self.replica_of)
        };
        State {
            role: self.role,
            master_replid: self.master_replid,
            master_repl_offset: self.master_repl_offset,
            replica_of,
            working_port: self.working_port,
            consumed: self.consumed,
            dir,
            dbfilename,
        }
    }
}

} // verus!
