# asobi

A minimal coding agent with a terminal interface, powered by AWS Bedrock. Its
decisions are a Verus library with contracts; the program around it reads, writes
and talks to the model.

## Layout

- `src/` is the library.
  - `agent.rs`: the turns of the agent, streamed replies, model ARNs.
  - `app.rs`, `screen.rs`, `interactive.rs`: the state of the screen, what it
    shows, what keys and commands do.
  - `tools.rs`, `wasm_tool.rs`, `config.rs`, `path.rs`: tools and plugins, what
    they may do, the configuration, paths.
  - `history.rs`, `entry.rs`, `conversation.rs`: sessions, the lines on which they are
    kept, messages.
  - `cli.rs`: the command line and runs without a screen.
  - `edit_file.rs`, `patch_file.rs`, `plugin.rs`: the two plugins and how strings
    pass between a plugin and its host.
  - `json.rs`, `document.rs`, `text.rs`: JSON values, documents, texts.
- `app/` is the program: files, the terminal, the network, WebAssembly modules. Its
  `edit_file_plugin.rs` and `patch_file_plugin.rs` are also the roots of the two plugins,
  each of which is compiled to a WebAssembly module of its own.
- `tests/` runs the library.

What the library believes without proof stands in functions marked
`external_body` and in `assume_specification` items. Each says above it which
function it calls and what is claimed of it.
