//! What a decoded message offers its readers.
pub mod traits;
pub mod util;

pub use traits::{IRCMessage, Message, Parameterized, Prefixed};
