//! Shell-integration and command-block logic of the Tessera terminal workspace.

pub mod environment;
pub mod proxy;
pub mod shell_integration;
pub mod terminal;
pub mod text;
pub mod workspace;
