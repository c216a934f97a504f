//! A local reminder ("nag") service library: the daemon's protocol and
//! concurrency core, stated and verified with Verus.
//!
//! The library holds the protocol model (commands, responses, reminders),
//! the length-prefixed message framing, the JSON payload codec, the shared
//! reminder store, and the expiry scan. Socket I/O, process spawning and
//! the periodic tick live outside the library and call into it.

pub mod command;
pub mod config;
pub mod error_code;
pub mod frame;
pub mod json;
pub mod store;
pub mod nag;
pub mod response;
pub mod text;
pub mod time;

pub use command::Command;
pub use config::Config;
pub use error_code::ErrorCode;
pub use nag::{Nag, nag_to_line, nags_from_text, nags_to_text, time_remaining};
pub use response::Response;

use vstd::prelude::*;

verus! {

/// Well-known filesystem path of the daemon's listening socket.
pub const COMSOCK_PATH: &'static str = "/home/hsmith/.tmp/nag.sock";
} // verus!
