# tessera

The shell-integration and command-block logic of the Tessera terminal
workspace, verified with Verus.

- `src/shell_integration/` — the OSC 133 marker parser (`osc133`), the
  semantic events it produces (`event`) and the base64 payload of captured
  output (`base64`).
- `src/terminal/` — the command lifecycle (`command_state`), command blocks
  and their tracker (`command_block`), Markdown reports (`markdown`), the
  plain export record (`export`), command input rules (`command_input`),
  timestamps (`timestamp`) and the per-session state driven by events
  (`session`).
- `src/environment.rs`, `src/proxy.rs`, `src/workspace.rs` — the decisions of
  the child environment, the PTY proxy and the tabbed window.
- `app/` — the GTK program and the PTY proxy's I/O: widgets, PTYs, pipes,
  threads, JSON, and reading the process environment and clock.
