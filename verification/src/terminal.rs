//! The terminal session model: command lifecycle state, command blocks,
//! their Markdown export, and the command input rules.

pub mod command_block;
pub mod command_input;
pub mod command_state;
pub mod export;
pub mod markdown;
pub mod session;
pub mod timestamp;

pub use command_block::{CommandBlock, CommandBlockId};
pub use command_state::{CommandLifecycleState, TerminalSessionSnapshot};
pub use session::TerminalSessionId;
pub use timestamp::{ElapsedTime, Timestamp};
