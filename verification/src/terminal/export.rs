//! The plain record of a command block that is handed to serializers.

use vstd::prelude::*;
use super::command_block::{CommandBlock, CommandBlockModel, block_duration};
use super::markdown::{command_block_state, command_text_for_export, export_command, state_text};

verus! {

/// The exported fields of one command block.
#[derive(Debug, Clone, PartialEq, Eq)]
pub struct CommandBlockExport {
    pub id: u64,
    pub session_id: u64,
    pub command: Option<String>,
    pub state: &'static str,
    pub exit_status: Option<i32>,
    pub duration_ms: Option<u128>,
    pub output_size_bytes: usize,
    pub output_truncated: bool,
}

/// The duration of a block in whole milliseconds, when it has one.
pub open spec fn duration_millis(b: CommandBlockModel) -> Option<nat> {
    match block_duration(b) {
        Some(nanos) => Some(nanos / 1_000_000),
        None => None,
    }
}

/// The exported record describes `b`: its numbers, its command unless that
/// is blank, its state, exit status, duration in milliseconds, output size
/// and truncation mark.
pub open spec fn exports_block(e: CommandBlockExport, b: CommandBlockModel) -> bool {
    &&& e.id == b.id
    &&& e.session_id == b.session_id
    &&& match e.command {
        Some(c) => export_command(b) == Some(c@),
        None => export_command(b) is None,
    }
    &&& e.state@ == state_text(b)
    &&& e.exit_status == b.exit_status
    &&& match e.duration_ms {
        Some(ms) => duration_millis(b) == Some(ms as nat),
        None => duration_millis(b) is None,
    }
    &&& e.output_size_bytes == b.output.len()
    &&& e.output_truncated == b.output_truncated
}

impl CommandBlockExport {
    /// The exported record of a block.
    pub fn from_block(block: &CommandBlock) -> (export: Self)
        ensures
            exports_block(export, block@),
    {
        let command = match command_text_for_export(block) {
            Some(c) => Some(c.to_owned()),
            None => None,
        };
        let duration_ms = match block.duration() {
            Some(elapsed) => Some(elapsed.as_millis()),
            None => None,
        };
        CommandBlockExport {
            id: block.id.as_u64(),
            session_id: block.session_id.as_u64(),
            command,
            state: command_block_state(block),
            exit_status: block.exit_status,
            duration_ms,
            output_size_bytes: block.output_bytes.len(),
            output_truncated: block.output_truncated,
        }
    }
}

/// The exported records of the blocks, in order.
pub fn export_command_blocks(blocks: &[CommandBlock]) -> (exports: Vec<CommandBlockExport>)
    ensures
        exports@.len() == blocks@.len(),
        forall|i: int| 0 <= i < blocks@.len() ==> exports_block(#[trigger] exports@[i], blocks@[i]@),
{
    let mut exports: Vec<CommandBlockExport> = Vec::new();
    for i in 0..blocks.len()
        invariant
            exports@.len() == i,
            forall|k: int| 0 <= k < i ==> exports_block(#[trigger] exports@[k], blocks@[k]@),
    {
        exports.push(CommandBlockExport::from_block(&blocks[i]));
    }
    exports
}

/// A size is left out of an export when it is zero.
pub fn is_zero(value: &usize) -> (zero: bool)
    ensures
        zero == (*value == 0),
{
    *value == 0
}

/// A flag is left out of an export when it is unset.
pub fn is_false(value: &bool) -> (unset: bool)
    ensures
        unset == !*value,
{
    !*value
}

} // verus!
