# active_collab

A command-line and terminal client for ActiveCollab task trackers: it fetches
a task by reference, URL or git branch, lists the open tasks assigned to you,
browses them by project in a terminal UI, and posts comments.

## Layout

- `src/` — the library, verified with Verus. Every public function carries a
  contract over spec functions and views; the laws of the library (the browse
  state machine, language precedence and translation, date conversion,
  command-line routing, instance choice, wrapping — widths, kept words and
  styles, trimmed lines — panel widths, the index ranges of the detail view,
  comment buttons on own comments only, the partition of tasks into browse
  groups, project names per instance, link and URL extraction, asset order,
  attachment names, branch names, token gating) are public proof functions
  whose names begin with `law_`.
  - `cli`, `resolve`: argument routing, task references, instance choice.
  - `app`, `keys`: the browse and flat-list state machines and their key maps.
  - `richparse`, `richtext`, `htmltext`, `wrap`, `render`, `detail`,
    `cli_render`: HTML to styled lines, wrapping, panels and the task views.
  - `assets`, `downloads`: asset extraction and download naming.
  - `client`, `projects`, `groups`, `commands`, `agent`: the decisions of each
    command, from plain values to plain values.
  - `unicode`: the trusted bindings to `unicode-width`, `html-escape`, `url`,
    `regex` and `regex-syntax`, and to the few std string operations used;
    `projects` holds the one binding to `serde_json` (stored name maps).
- `app/` — the program: command line (clap), SQLite store (rusqlite), HTTP
  (reqwest), terminal (crossterm, ratatui). It performs I/O and hands plain
  values to the library.
- `tests/` — tests of the library on concrete values.
