//! Shell integration: the OSC 133 marker parser and the semantic event
//! protocol that the PTY proxy reports to the terminal workspace.

pub mod base64;
pub mod event;
pub mod osc133;
