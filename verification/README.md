# memguard

The memory of a coding agent: tasks, architecture decision records (ADRs) and
traps, kept in Markdown files under `memory/` and served over the Model Context
Protocol.

- `src/` is the library. Everything in it is verified with Verus: the Markdown
  projections and what reads back from them, the validators and the state manager,
  loading and flushing, the search index, the cleanup, and the decisions of the
  server. `src/foreign.rs` holds what is believed of other code.
- `tests/` runs the library.
- `app/` is the program around it: files, stdin and stdout, JSON, and the
  floating-point scores.

| Module | What it decides |
| --- | --- |
| `models` | the records, and the names of their statuses |
| `engine::projection` | `context.md`, `decisions.md`, `traps.md`, `tasks_archive.md` |
| `engine::validator`, `engine::validators` | which events are refused, and why |
| `engine::state_manager` | what an event does to the memory state |
| `engine::persistence` | what is loaded, what a flush writes, and when |
| `engine::calendar` | dates and timestamps |
| `search` | which entries a query meets, and in what order they come |
| `cli::cleanup` | what is amiss, the report, and the files afterwards |
| `mcp` | how requests are read and answered |
