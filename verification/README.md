# otm

A terminal task manager's logic as a verified library: the tables it shows (processes
grouped into apps and background processes, users, details, app history, startup apps,
services), filtering and stable sorting, the selection that follows an item as rows move,
the key and mouse handling, number formatting, the command line, and the HTML export of a
rendered screen. Every function carries a contract checked by Verus.

Layout:

- `src/` — the library. `app.rs` holds the state machine (keys, clicks, dialogs); `views.rs`,
  `grouped.rs` and `groups.rs` build the tables; `order.rs` and `keys.rs` the stable sorts;
  `format.rs` the exact number formatting; `screen.rs` what surrounds the tables; `html.rs`
  the HTML export; `cli.rs` the options; `history.rs` the graph buffers; `laws.rs` the
  properties that span operations.
- `tests/` — tests on concrete values.
- `app/` — the terminal front end: system data collection, drawing with ratatui, the event
  loop, and the floating-point graphs.
