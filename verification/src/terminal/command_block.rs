//! Command blocks: one record per command the shell ran, with its command
//! line, start and end time, exit status and captured output, and the
//! tracker that opens and closes them as lifecycle events arrive.

use vstd::prelude::*;
use super::session::TerminalSessionId;
use super::timestamp::{ElapsedTime, Timestamp};
use super::command_input::option_chars;

verus! {

/// Identifies a command block within its session.
#[derive(Debug, Clone, Copy, PartialEq, Eq, Hash, Structural)]
pub struct CommandBlockId(u64);

impl View for CommandBlockId {
    type V = u64;

    closed spec fn view(&self) -> u64 {
        self.0
    }
}

impl CommandBlockId {
    /// The block id with the given number.
    pub fn from_u64(value: u64) -> (id: Self)
        ensures
            id@ == value,
    {
        CommandBlockId(value)
    }

    /// The number of this block id.
    pub fn as_u64(self) -> (value: u64)
        ensures
            value == self@,
    {
        self.0
    }
}

/// One command run by the shell.
#[derive(Debug, Clone, PartialEq, Eq)]
pub struct CommandBlock {
    pub id: CommandBlockId,
    pub session_id: TerminalSessionId,
    pub command: Option<String>,
    pub started_at: Timestamp,
    pub ended_at: Option<Timestamp>,
    pub exit_status: Option<i32>,
    pub output_bytes: Vec<u8>,
    pub output_truncated: bool,
}

/// The mathematical value of a [`CommandBlock`]; times are nanoseconds
/// since the Unix epoch.
pub ghost struct CommandBlockModel {
    pub id: u64,
    pub session_id: u64,
    pub command: Option<Seq<char>>,
    pub started_at: int,
    pub ended_at: Option<int>,
    pub exit_status: Option<i32>,
    pub output: Seq<u8>,
    pub output_truncated: bool,
}

/// The view of an optional timestamp.
pub open spec fn option_time(t: Option<Timestamp>) -> Option<int> {
    match t {
        Some(t) => Some(t@),
        None => None,
    }
}

impl View for CommandBlock {
    type V = CommandBlockModel;

    open spec fn view(&self) -> CommandBlockModel {
        CommandBlockModel {
            id: self.id@,
            session_id: self.session_id@,
            command: option_chars(self.command),
            started_at: self.started_at@,
            ended_at: option_time(self.ended_at),
            exit_status: self.exit_status,
            output: self.output_bytes@,
            output_truncated: self.output_truncated,
        }
    }
}

/// The views of a sequence of blocks.
pub open spec fn block_models(blocks: Seq<CommandBlock>) -> Seq<CommandBlockModel> {
    blocks.map_values(|b: CommandBlock| b@)
}

/// The time from start to end of a finished block, unless it ended before
/// it started.
pub open spec fn block_duration(b: CommandBlockModel) -> Option<nat> {
    match b.ended_at {
        Some(end) => if b.started_at <= end {
            Some((end - b.started_at) as nat)
        } else {
            None
        },
        None => None,
    }
}

/// The block has output to report: captured bytes, or a truncation mark.
pub open spec fn block_has_output_metadata(b: CommandBlockModel) -> bool {
    b.output.len() > 0 || b.output_truncated
}

impl CommandBlock {
    /// The time from start to end, for a finished block that did not end
    /// before it started.
    pub fn duration(&self) -> (elapsed: Option<ElapsedTime>)
        ensures
            match elapsed {
                Some(e) => block_duration(self@) == Some(e@),
                None => block_duration(self@) is None,
            },
    {
        match self.ended_at {
            Some(end) => end.duration_since(self.started_at),
            None => None,
        }
    }

    /// Whether the command has finished.
    pub fn is_finished(&self) -> (finished: bool)
        ensures
            finished == (self@.ended_at is Some),
    {
        self.ended_at.is_some()
    }

    /// Whether there is output to report.
    pub fn has_output_metadata(&self) -> (has: bool)
        ensures
            has == block_has_output_metadata(self@),
    {
        self.output_bytes.len() > 0 || self.output_truncated
    }
}

// ---------------------------------------------------------------------------
// Opening and closing blocks

/// The first block with the given id.
pub open spec fn find_block_from(blocks: Seq<CommandBlockModel>, id: u64, i: int) -> Option<int>
    decreases blocks.len() - i,
{
    if i < 0 || i >= blocks.len() {
        None
    } else if blocks[i].id == id {
        Some(i)
    } else {
        find_block_from(blocks, id, i + 1)
    }
}

/// The position of the first block with the given id.
pub open spec fn find_block(blocks: Seq<CommandBlockModel>, id: u64) -> Option<int> {
    find_block_from(blocks, id, 0)
}

proof fn lemma_find_block_from(blocks: Seq<CommandBlockModel>, id: u64, i: int)
    requires
        0 <= i,
    ensures
        match find_block_from(blocks, id, i) {
            Some(k) => i <= k < blocks.len() && blocks[k].id == id && forall|m: int|
                i <= m < k ==> blocks[m].id != id,
            None => forall|m: int| i <= m < blocks.len() ==> blocks[m].id != id,
        },
    decreases blocks.len() - i,
{
    if i < blocks.len() && blocks[i].id != id {
        lemma_find_block_from(blocks, id, i + 1);
    }
}

/// The position of the first block with the given id.
fn find_block_index(blocks: &Vec<CommandBlock>, id: CommandBlockId) -> (found: Option<usize>)
    ensures
        match found {
            Some(k) => find_block(block_models(blocks@), id@) == Some(k as int) && k < blocks@.len(),
            None => find_block(block_models(blocks@), id@) is None,
        },
{
    let ghost models = block_models(blocks@);
    let mut i: usize = 0;
    while i < blocks.len()
        invariant
            i <= blocks@.len(),
            models == block_models(blocks@),
            find_block(models, id@) == find_block_from(models, id@, i as int),
        decreases blocks@.len() - i,
    {
        if blocks[i].id.as_u64() == id.as_u64() {
            assert(models[i as int].id == id@);
            return Some(i);
        }
        assert(models[i as int].id != id@);
        i += 1;
    }
    None
}

/// The block as closed at time `now` with the given status.
pub open spec fn closed_block(b: CommandBlockModel, status: Option<i32>, now: int) -> CommandBlockModel {
    CommandBlockModel { ended_at: Some(now), exit_status: status, ..b }
}

/// A block just opened at time `now`.
pub open spec fn new_block(id: u64, session_id: u64, command: Option<Seq<char>>, now: int) -> CommandBlockModel {
    CommandBlockModel {
        id,
        session_id,
        command,
        started_at: now,
        ended_at: None,
        exit_status: None,
        output: Seq::empty(),
        output_truncated: false,
    }
}

/// The blocks after a command starts: the block still open, if the current
/// one is, is closed without a status; a new block, numbered `next`, is
/// appended and becomes the current one; the next number moves on.
pub open spec fn start_step(
    session_id: u64,
    blocks: Seq<CommandBlockModel>,
    current: Option<u64>,
    next: u64,
    command: Option<Seq<char>>,
    now: int,
) -> (Seq<CommandBlockModel>, Option<u64>, u64) {
    let closed = match current {
        Some(open) => match find_block(blocks, open) {
            Some(k) => if blocks[k].ended_at is None {
                blocks.update(k, closed_block(blocks[k], None, now))
            } else {
                blocks
            },
            None => blocks,
        },
        None => blocks,
    };
    (closed.push(new_block(next, session_id, command, now)), Some(next), (next + 1) as u64)
}

/// The blocks after the current command finishes: it is closed with the
/// status, and there is no current block any more.
pub open spec fn finish_step(
    blocks: Seq<CommandBlockModel>,
    current: Option<u64>,
    status: Option<i32>,
    now: int,
) -> (Seq<CommandBlockModel>, Option<u64>) {
    match current {
        Some(id) => match find_block(blocks, id) {
            Some(k) => (blocks.update(k, closed_block(blocks[k], status, now)), None),
            None => (blocks, None),
        },
        None => (blocks, current),
    }
}

/// The blocks after an output chunk: appended to the current block's output.
pub open spec fn append_step(blocks: Seq<CommandBlockModel>, current: Option<u64>, bytes: Seq<u8>) -> Seq<CommandBlockModel> {
    if bytes.len() == 0 {
        blocks
    } else {
        match current {
            Some(id) => match find_block(blocks, id) {
                Some(k) => blocks.update(
                    k,
                    CommandBlockModel { output: blocks[k].output + bytes, ..blocks[k] },
                ),
                None => blocks,
            },
            None => blocks,
        }
    }
}

/// The blocks after the output limit was hit: the current block is marked.
pub open spec fn truncate_step(blocks: Seq<CommandBlockModel>, current: Option<u64>) -> Seq<CommandBlockModel> {
    match current {
        Some(id) => match find_block(blocks, id) {
            Some(k) => blocks.update(k, CommandBlockModel { output_truncated: true, ..blocks[k] }),
            None => blocks,
        },
        None => blocks,
    }
}

/// Opens a block for a command that starts now, closing one still open.
pub fn start_command_block(
    session_id: TerminalSessionId,
    blocks: &mut Vec<CommandBlock>,
    current_block_id: &mut Option<CommandBlockId>,
    next_block_id: &mut u64,
    command: Option<String>,
    now: Timestamp,
)
    requires
        *old(next_block_id) < u64::MAX,
    ensures
        ({
            let step = start_step(
                session_id@,
                block_models(old(blocks)@),
                match *old(current_block_id) {
                    Some(id) => Some(id@),
                    None => None,
                },
                *old(next_block_id),
                option_chars(command),
                now@,
            );
            &&& block_models(final(blocks)@) == step.0
            &&& (match *final(current_block_id) {
                Some(id) => Some(id@),
                None => None,
            }) == step.1
            &&& *final(next_block_id) == step.2
        }),
{
    let ghost models = block_models(blocks@);
    let ghost closed = models;
    if let Some(open_block_id) = *current_block_id {
        match find_block_index(blocks, open_block_id) {
            Some(k) => {
                if blocks[k].ended_at.is_none() {
                    blocks[k].ended_at = Some(now);
                    blocks[k].exit_status = None;
                    proof {
                        closed = models.update(k as int, closed_block(models[k as int], None, now@));
                        assert(block_models(blocks@) =~= closed);
                    }
                }
            },
            None => {},
        }
    }
    let id = CommandBlockId(*next_block_id);
    *next_block_id = *next_block_id + 1;
    let block = CommandBlock {
        id,
        session_id,
        command,
        started_at: now,
        ended_at: None,
        exit_status: None,
        output_bytes: Vec::new(),
        output_truncated: false,
    };
    let ghost before = blocks@;
    blocks.push(block);
    assert(block_models(blocks@) =~= block_models(before).push(block@));
    *current_block_id = Some(id);
}

/// Closes the current block with the command's status.
pub fn finish_command_block(
    session_id: TerminalSessionId,
    blocks: &mut Vec<CommandBlock>,
    current_block_id: &mut Option<CommandBlockId>,
    status: Option<i32>,
    now: Timestamp,
)
    ensures
        ({
            let step = finish_step(
                block_models(old(blocks)@),
                match *old(current_block_id) {
                    Some(id) => Some(id@),
                    None => None,
                },
                status,
                now@,
            );
            &&& block_models(final(blocks)@) == step.0
            &&& (match *final(current_block_id) {
                Some(id) => Some(id@),
                None => None,
            }) == step.1
        }),
{
    let block_id = match *current_block_id {
        Some(id) => id,
        None => return,
    };
    let k = match find_block_index(blocks, block_id) {
        Some(k) => k,
        None => {
            *current_block_id = None;
            return;
        },
    };
    let ghost models = block_models(blocks@);
    blocks[k].ended_at = Some(now);
    blocks[k].exit_status = status;
    assert(block_models(blocks@) =~= models.update(k as int, closed_block(models[k as int], status, now@)));
    *current_block_id = None;
}

/// Appends an output chunk to the current block.
pub fn append_command_output_chunk(
    session_id: TerminalSessionId,
    blocks: &mut Vec<CommandBlock>,
    current_block_id: Option<CommandBlockId>,
    bytes: &[u8],
)
    ensures
        block_models(final(blocks)@) == append_step(
            block_models(old(blocks)@),
            match current_block_id {
                Some(id) => Some(id@),
                None => None,
            },
            bytes@,
        ),
{
    if bytes.len() == 0 {
        return;
    }
    let block_id = match current_block_id {
        Some(id) => id,
        None => return,
    };
    let k = match find_block_index(blocks, block_id) {
        Some(k) => k,
        None => return,
    };
    let ghost models = block_models(blocks@);
    extend_bytes(&mut blocks[k].output_bytes, bytes);
    assert(block_models(blocks@) =~= models.update(
        k as int,
        CommandBlockModel { output: models[k as int].output + bytes@, ..models[k as int] },
    ));
}

/// Appends bytes to a byte vector.
pub(crate) fn extend_bytes(v: &mut Vec<u8>, bytes: &[u8])
    ensures
        final(v)@ == old(v)@ + bytes@,
{
    v.extend_from_slice(bytes);
    proof {
        assert forall|m: int| 0 <= m < v@.len() implies v@[m] == (old(v)@ + bytes@)[m] by {
            if m >= old(v)@.len() {
                assert(cloned::<u8>(bytes@[m - old(v)@.len()], v@[m]));
            }
        }
        assert(v@ =~= old(v)@ + bytes@);
    }
}

/// Marks the current block's output as truncated.
pub fn mark_command_output_truncated(
    session_id: TerminalSessionId,
    blocks: &mut Vec<CommandBlock>,
    current_block_id: Option<CommandBlockId>,
)
    ensures
        block_models(final(blocks)@) == truncate_step(
            block_models(old(blocks)@),
            match current_block_id {
                Some(id) => Some(id@),
                None => None,
            },
        ),
{
    let block_id = match current_block_id {
        Some(id) => id,
        None => return,
    };
    let k = match find_block_index(blocks, block_id) {
        Some(k) => k,
        None => return,
    };
    let ghost models = block_models(blocks@);
    blocks[k].output_truncated = true;
    assert(block_models(blocks@) =~= models.update(
        k as int,
        CommandBlockModel { output_truncated: true, ..models[k as int] },
    ));
}


// ---------------------------------------------------------------------------
// The tracker

/// The mathematical value of a [`CommandBlockTracker`].
pub ghost struct CommandBlockTrackerModel {
    pub session_id: u64,
    pub blocks: Seq<CommandBlockModel>,
    pub current: Option<u64>,
    pub next_block_id: u64,
}

/// What every tracker satisfies: blocks are numbered 1, 2, 3, ... in order
/// and belong to the tracker's session; the next number follows the last;
/// every block is finished except the current one, which is the last block
/// and still running.
pub open spec fn tracker_invariant(m: CommandBlockTrackerModel) -> bool {
    &&& m.next_block_id == m.blocks.len() + 1
    &&& forall|i: int|
        0 <= i < m.blocks.len() ==> (#[trigger] m.blocks[i]).id == i + 1 && m.blocks[i].session_id
            == m.session_id
    &&& match m.current {
        Some(id) => {
            &&& m.blocks.len() > 0
            &&& id == m.blocks.len()
            &&& m.blocks.last().ended_at is None
            &&& forall|i: int| 0 <= i < m.blocks.len() - 1 ==> (#[trigger] m.blocks[i]).ended_at is Some
        },
        None => forall|i: int| 0 <= i < m.blocks.len() ==> (#[trigger] m.blocks[i]).ended_at is Some,
    }
}

/// The tracker after a command starts.
pub open spec fn tracker_started(m: CommandBlockTrackerModel, command: Option<Seq<char>>, now: int) -> CommandBlockTrackerModel {
    let step = start_step(m.session_id, m.blocks, m.current, m.next_block_id, command, now);
    CommandBlockTrackerModel { blocks: step.0, current: step.1, next_block_id: step.2, ..m }
}

/// The tracker after the current command finishes.
pub open spec fn tracker_finished(m: CommandBlockTrackerModel, status: Option<i32>, now: int) -> CommandBlockTrackerModel {
    let step = finish_step(m.blocks, m.current, status, now);
    CommandBlockTrackerModel { blocks: step.0, current: step.1, ..m }
}

/// The tracker after an output chunk.
pub open spec fn tracker_appended(m: CommandBlockTrackerModel, bytes: Seq<u8>) -> CommandBlockTrackerModel {
    CommandBlockTrackerModel { blocks: append_step(m.blocks, m.current, bytes), ..m }
}

/// The tracker after the output limit was hit.
pub open spec fn tracker_truncated(m: CommandBlockTrackerModel) -> CommandBlockTrackerModel {
    CommandBlockTrackerModel { blocks: truncate_step(m.blocks, m.current), ..m }
}

/// The current block of a tracker, if there is one.
pub open spec fn tracker_current_block(m: CommandBlockTrackerModel) -> Option<CommandBlockModel> {
    match m.current {
        Some(id) => match find_block(m.blocks, id) {
            Some(k) => Some(m.blocks[k]),
            None => None,
        },
        None => None,
    }
}

/// Opens and closes the command blocks of one session.
#[derive(Debug, Clone, PartialEq, Eq)]
pub struct CommandBlockTracker {
    session_id: TerminalSessionId,
    blocks: Vec<CommandBlock>,
    current_block_id: Option<CommandBlockId>,
    next_block_id: u64,
}

/// The view of an optional block id.
pub open spec fn option_id(id: Option<CommandBlockId>) -> Option<u64> {
    match id {
        Some(id) => Some(id@),
        None => None,
    }
}

impl View for CommandBlockTracker {
    type V = CommandBlockTrackerModel;

    closed spec fn view(&self) -> CommandBlockTrackerModel {
        CommandBlockTrackerModel {
            session_id: self.session_id@,
            blocks: block_models(self.blocks@),
            current: option_id(self.current_block_id),
            next_block_id: self.next_block_id,
        }
    }
}

/// Under the invariant, the block with the current id is the last one.
pub proof fn lemma_current_is_last(m: CommandBlockTrackerModel)
    requires
        tracker_invariant(m),
        m.current is Some,
    ensures
        find_block(m.blocks, m.current->0) == Some(m.blocks.len() - 1),
{
    let id = m.current->0;
    lemma_find_block_from(m.blocks, id, 0);
    match find_block(m.blocks, id) {
        Some(k) => {
            assert(m.blocks[k].id == k + 1);
            assert(m.blocks[m.blocks.len() - 1].id == m.blocks.len());
        },
        None => {
            assert(m.blocks[m.blocks.len() - 1].id == id);
        },
    }
}

impl CommandBlockTracker {
    /// A tracker for the given session, with no block yet.
    pub fn new(session_id: TerminalSessionId) -> (tracker: Self)
        ensures
            tracker@ == (CommandBlockTrackerModel {
                session_id: session_id@,
                blocks: Seq::empty(),
                current: None,
                next_block_id: 1,
            }),
            tracker_invariant(tracker@),
    {
        let tracker = CommandBlockTracker {
            session_id,
            blocks: Vec::new(),
            current_block_id: None,
            next_block_id: 1,
        };
        assert(block_models(tracker.blocks@) =~= Seq::<CommandBlockModel>::empty());
        tracker
    }

    /// Opens a block for a command that starts now.
    pub fn command_started(&mut self, command: Option<String>, now: Timestamp)
        requires
            tracker_invariant(old(self)@),
            old(self)@.next_block_id < u64::MAX,
        ensures
            final(self)@ == tracker_started(old(self)@, option_chars(command), now@),
            tracker_invariant(final(self)@),
    {
        let ghost m = self@;
        proof {
            if m.current is Some {
                lemma_current_is_last(m);
            }
        }
        start_command_block(
            self.session_id,
            &mut self.blocks,
            &mut self.current_block_id,
            &mut self.next_block_id,
            command,
            now,
        );
        proof {
            let n = self@;
            assert(tracker_invariant(n)) by {
                assert forall|i: int| 0 <= i < n.blocks.len() implies (#[trigger] n.blocks[i]).id
                    == i + 1 && n.blocks[i].session_id == n.session_id by {
                    if i < m.blocks.len() {
                        assert(n.blocks[i].id == m.blocks[i].id);
                    }
                }
            }
        }
    }

    /// Closes the current block with the command's status.
    pub fn command_finished(&mut self, status: Option<i32>, now: Timestamp)
        requires
            tracker_invariant(old(self)@),
        ensures
            final(self)@ == tracker_finished(old(self)@, status, now@),
            tracker_invariant(final(self)@),
    {
        let ghost m = self@;
        proof {
            if m.current is Some {
                lemma_current_is_last(m);
            }
        }
        finish_command_block(self.session_id, &mut self.blocks, &mut self.current_block_id, status, now);
        proof {
            let n = self@;
            assert forall|i: int| 0 <= i < n.blocks.len() implies (#[trigger] n.blocks[i]).id == i + 1
                && n.blocks[i].session_id == n.session_id && n.blocks[i].ended_at is Some by {
                assert(n.blocks[i].id == m.blocks[i].id);
            }
        }
    }

    /// Appends captured output to the current block.
    pub fn append_output_chunk(&mut self, bytes: &[u8])
        requires
            tracker_invariant(old(self)@),
        ensures
            final(self)@ == tracker_appended(old(self)@, bytes@),
            tracker_invariant(final(self)@),
    {
        let ghost m = self@;
        proof {
            if m.current is Some {
                lemma_current_is_last(m);
            }
        }
        append_command_output_chunk(self.session_id, &mut self.blocks, self.current_block_id, bytes);
        proof {
            let n = self@;
            assert forall|i: int| 0 <= i < n.blocks.len() implies (#[trigger] n.blocks[i]).id == i + 1
                && n.blocks[i].session_id == n.session_id && n.blocks[i].ended_at == m.blocks[i].ended_at by {
                assert(n.blocks[i].id == m.blocks[i].id);
            }
        }
    }

    /// Marks the current block's output as truncated.
    pub fn mark_output_truncated(&mut self)
        requires
            tracker_invariant(old(self)@),
        ensures
            final(self)@ == tracker_truncated(old(self)@),
            tracker_invariant(final(self)@),
    {
        let ghost m = self@;
        proof {
            if m.current is Some {
                lemma_current_is_last(m);
            }
        }
        mark_command_output_truncated(self.session_id, &mut self.blocks, self.current_block_id);
        proof {
            let n = self@;
            assert forall|i: int| 0 <= i < n.blocks.len() implies (#[trigger] n.blocks[i]).id == i + 1
                && n.blocks[i].session_id == n.session_id && n.blocks[i].ended_at == m.blocks[i].ended_at by {
                assert(n.blocks[i].id == m.blocks[i].id);
            }
        }
    }

    /// All blocks, oldest first.
    pub fn blocks(&self) -> (blocks: &[CommandBlock])
        ensures
            block_models(blocks@) == self@.blocks,
    {
        self.blocks.as_slice()
    }

    /// The block of the command that is running, if any.
    pub fn current_block(&self) -> (block: Option<&CommandBlock>)
        ensures
            match block {
                Some(b) => tracker_current_block(self@) == Some(b@),
                None => tracker_current_block(self@) is None,
            },
    {
        let current_block_id = match self.current_block_id {
            Some(id) => id,
            None => return None,
        };
        match find_block_index(&self.blocks, current_block_id) {
            Some(k) => Some(&self.blocks[k]),
            None => None,
        }
    }
}

// ---------------------------------------------------------------------------
// Laws of the tracker

/// Every operation keeps the tracker invariant: blocks stay numbered
/// 1, 2, 3, ... in the tracker's session, and only the current (last) block
/// may still be running.
pub proof fn lemma_tracker_operations_keep_invariant(
    m: CommandBlockTrackerModel,
    command: Option<Seq<char>>,
    status: Option<i32>,
    bytes: Seq<u8>,
    now: int,
)
    requires
        tracker_invariant(m),
        m.next_block_id < u64::MAX,
    ensures
        tracker_invariant(tracker_started(m, command, now)),
        tracker_invariant(tracker_finished(m, status, now)),
        tracker_invariant(tracker_appended(m, bytes)),
        tracker_invariant(tracker_truncated(m)),
{
    if m.current is Some {
        lemma_current_is_last(m);
    }
    let s = tracker_started(m, command, now);
    assert forall|i: int| 0 <= i < s.blocks.len() implies (#[trigger] s.blocks[i]).id == i + 1
        && s.blocks[i].session_id == s.session_id by {
        if i < m.blocks.len() {
            assert(s.blocks[i].id == m.blocks[i].id);
        }
    }
    let f = tracker_finished(m, status, now);
    assert forall|i: int| 0 <= i < f.blocks.len() implies (#[trigger] f.blocks[i]).id == i + 1
        && f.blocks[i].session_id == f.session_id && f.blocks[i].ended_at is Some by {
        assert(f.blocks[i].id == m.blocks[i].id);
    }
    let a = tracker_appended(m, bytes);
    assert forall|i: int| 0 <= i < a.blocks.len() implies (#[trigger] a.blocks[i]).id == i + 1
        && a.blocks[i].session_id == a.session_id && a.blocks[i].ended_at == m.blocks[i].ended_at by {
        assert(a.blocks[i].id == m.blocks[i].id);
    }
    let t = tracker_truncated(m);
    assert forall|i: int| 0 <= i < t.blocks.len() implies (#[trigger] t.blocks[i]).id == i + 1
        && t.blocks[i].session_id == t.session_id && t.blocks[i].ended_at == m.blocks[i].ended_at by {
        assert(t.blocks[i].id == m.blocks[i].id);
    }
}

/// History is append-only: no operation removes a block, and a block that
/// is not the current one is never changed again.
pub proof fn lemma_tracker_history_is_fixed(
    m: CommandBlockTrackerModel,
    command: Option<Seq<char>>,
    status: Option<i32>,
    bytes: Seq<u8>,
    now: int,
    i: int,
)
    requires
        tracker_invariant(m),
        0 <= i < m.blocks.len(),
        m.current != Some(m.blocks[i].id),
    ensures
        tracker_started(m, command, now).blocks[i] == m.blocks[i],
        tracker_finished(m, status, now).blocks[i] == m.blocks[i],
        tracker_appended(m, bytes).blocks[i] == m.blocks[i],
        tracker_truncated(m).blocks[i] == m.blocks[i],
        tracker_started(m, command, now).blocks.len() == m.blocks.len() + 1,
        tracker_finished(m, status, now).blocks.len() == m.blocks.len(),
        tracker_appended(m, bytes).blocks.len() == m.blocks.len(),
        tracker_truncated(m).blocks.len() == m.blocks.len(),
{
    if m.current is Some {
        lemma_current_is_last(m);
        assert(m.blocks[i].id == i + 1);
    }
}

/// A command that starts and then finishes leaves one new, closed block:
/// numbered by the tracker's next number, holding its command line, start
/// time, end time and status; afterwards no block is current.
pub proof fn lemma_start_then_finish(
    m: CommandBlockTrackerModel,
    command: Option<Seq<char>>,
    started: int,
    status: Option<i32>,
    ended: int,
)
    requires
        tracker_invariant(m),
        m.next_block_id < u64::MAX,
    ensures
        ({
            let after = tracker_finished(tracker_started(m, command, started), status, ended);
            &&& after.blocks.len() == m.blocks.len() + 1
            &&& after.blocks.last() == closed_block(
                new_block(m.next_block_id, m.session_id, command, started),
                status,
                ended,
            )
            &&& after.current is None
            &&& after.next_block_id == m.next_block_id + 1
        }),
{
    lemma_tracker_operations_keep_invariant(m, command, status, Seq::empty(), started);
    let s = tracker_started(m, command, started);
    lemma_current_is_last(s);
}

/// Finishing a command keeps the tracker invariant, whatever the counter.
pub proof fn lemma_tracker_finish_keeps_invariant(m: CommandBlockTrackerModel, status: Option<i32>, now: int)
    requires
        tracker_invariant(m),
    ensures
        tracker_invariant(tracker_finished(m, status, now)),
{
    if m.current is Some {
        lemma_current_is_last(m);
    }
    let f = tracker_finished(m, status, now);
    assert forall|i: int| 0 <= i < f.blocks.len() implies (#[trigger] f.blocks[i]).id == i + 1
        && f.blocks[i].session_id == f.session_id && f.blocks[i].ended_at is Some by {
        assert(f.blocks[i].id == m.blocks[i].id);
    }
}

/// The current block of any tracker that `new` and the four operations can
/// produce: either there is none and every block is finished, or it is the
/// last block, still running, and every other block is finished. Right
/// after a command starts it is the new last block, holding that command;
/// right after a command finishes there is none.
pub proof fn lemma_tracker_current_block(
    m: CommandBlockTrackerModel,
    command: Option<Seq<char>>,
    status: Option<i32>,
    now: int,
)
    requires
        tracker_invariant(m),
    ensures
        match tracker_current_block(m) {
            Some(b) => {
                &&& m.blocks.len() > 0
                &&& b == m.blocks.last()
                &&& b.ended_at is None
                &&& forall|i: int| 0 <= i < m.blocks.len() - 1 ==> (#[trigger] m.blocks[i]).ended_at is Some
            },
            None => forall|i: int| 0 <= i < m.blocks.len() ==> (#[trigger] m.blocks[i]).ended_at is Some,
        },
        m.next_block_id < u64::MAX ==> ({
            let s = tracker_started(m, command, now);
            &&& tracker_current_block(s) == Some(s.blocks.last())
            &&& s.blocks.last().command == command
            &&& s.blocks.last().ended_at is None
        }),
        tracker_current_block(tracker_finished(m, status, now)) is None,
{
    if m.current is Some {
        lemma_current_is_last(m);
    }
    if m.next_block_id < u64::MAX {
        lemma_tracker_operations_keep_invariant(m, command, status, Seq::empty(), now);
        let s = tracker_started(m, command, now);
        lemma_current_is_last(s);
    }
}

/// Finishing a command closes exactly the running block: it records the
/// reported status and the end time, whatever output the block captured,
/// and keeps everything else of it; no other block changes and none is
/// current afterwards. With no running block nothing changes.
pub proof fn lemma_finish_records_status(m: CommandBlockTrackerModel, status: Option<i32>, now: int)
    requires
        tracker_invariant(m),
    ensures
        ({
            let f = tracker_finished(m, status, now);
            &&& f.blocks.len() == m.blocks.len()
            &&& f.current is None
            &&& f.session_id == m.session_id
            &&& f.next_block_id == m.next_block_id
            &&& m.current is None ==> f.blocks == m.blocks
            &&& m.current is Some ==> ({
                let k = m.blocks.len() - 1;
                &&& f.blocks[k].exit_status == status
                &&& f.blocks[k].ended_at == Some(now)
                &&& f.blocks[k].id == m.blocks[k].id
                &&& f.blocks[k].session_id == m.blocks[k].session_id
                &&& f.blocks[k].command == m.blocks[k].command
                &&& f.blocks[k].started_at == m.blocks[k].started_at
                &&& f.blocks[k].output == m.blocks[k].output
                &&& f.blocks[k].output_truncated == m.blocks[k].output_truncated
                &&& forall|i: int| 0 <= i < k ==> f.blocks[i] == m.blocks[i]
            })
        }),
{
    if m.current is Some {
        lemma_current_is_last(m);
    }
}

} // verus!
