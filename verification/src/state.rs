//! The replication state of a node.

use vstd::prelude::*;
use vstd::string::StringExecFns;

verus! {

/// How many bytes one read from a connection takes at most.
pub const BUFFER_SIZE: usize = 128 * 2;

/// Whether the node takes writes of its own or follows a master.
#[derive(Debug, Clone, Copy, PartialEq, Eq, Structural)]
pub enum ServerRole {
    Master,
    Slave,
}

impl ServerRole {
    /// The name of the role as `INFO` reports it.
    pub open spec fn name(self) -> Seq<char> {
        match self {
            ServerRole::Master => "master"@,
            ServerRole::Slave => "slave"@,
        }
    }

    /// The name of the role as `INFO` reports it: `master` or `slave`.
    pub fn to_string(&self) -> (r: String)
        ensures
            r@ == self.name(),
    {
        match self {
            ServerRole::Master => String::from_str("master"),
            ServerRole::Slave => String::from_str("slave"),
        }
    }
}

/// What a node knows of its place in the replication.
pub struct State {
    pub role: ServerRole,
    /// The id under which this node's stream of writes is known.
    pub master_replid: String,
    /// The offset that a full resync announces to a new replica.
    pub master_repl_offset: u64,
    /// The address of the master that this node follows, if it follows one.
    pub replica_of: Option<String>,
    /// The port on which this node listens.
    pub working_port: u64,
    /// The replication offset: how many bytes of command frames this node has
    /// decoded and taken in so far.
    pub consumed: u64,
    pub dir: Option<String>,
    pub dbfilename: Option<String>,
}

} // verus!
