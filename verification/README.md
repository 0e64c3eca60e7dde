# activity-mcp

A daemon that watches directories with git projects, keeps a journal of what
happens in them, and digests the journal on a schedule. Digests and the journal
are served as tools over MCP.

## Layout

- `src/` is the library: everything that is decided or computed, written in
  Verus and proved against its contracts.
  - `text`, `order`: pieces of text; finding, selecting and stable sorting.
  - `json`: JSON values of `serde_json`, and what they hold.
  - `time`, `schedule`: durations, moments on the local clock, cron schedules.
  - `git`: the commands that are asked, and what their output says.
  - `discovery`: paths, the walk for projects, and which project owns a path.
  - `store`, `store_laws`: the tables of the journal, their rules, and what
    holds across operations.
  - `collector`, `collector_laws`: what to ask git for, and which events follow
    from its answers.
  - `digest`: grouping the events of a period, the text and the value of a
    digest, and when one is due.
  - `server`, `daemon`: the replies of the tools, and the decisions of the
    background loops and of the HTTP routes.
- `app/` is the program around it: the command line, SQLite, running `git`,
  reading directories, file events, timers, HTTP and MCP.
- `tests/` runs the library together with the crates it calls.

## What is taken on trust

The library calls `serde_json`, `chrono`, `cron` and a few functions of `std`.
Each such call stands behind an item with a doc comment that names the outside
function and says what is claimed of it. What depends on the machine (its clock
and its time zone) is left open in contracts: they say what holds whatever the
local clock shows.

The journal in `src/store.rs` holds its tables in memory. The program loads them
from SQLite in a transaction, lets the library change them, and writes the
difference back.
