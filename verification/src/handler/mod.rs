//! The commands: what each replies and changes, and the dispatcher that routes
//! the frames of a connection to them.

pub mod config;
pub mod echo;
pub mod error;
pub mod get;
pub mod handler;
pub mod info;
pub mod laws;
pub mod ping;
pub mod psync;
pub mod replconf;
pub mod set;
pub mod wait;

pub use config::handle_config;
pub use echo::handle_echo;
pub use error::CommandError;
pub use get::handle_get;
pub use handler::{can_handle, handle, try_handle, Action, HandleResult, Handled, Peer};
pub use info::handle_info;
pub use ping::handle_ping;
pub use psync::handle_psync;
pub use replconf::handle_replconf;
pub use set::handle_set;
pub use wait::handle_wait;
