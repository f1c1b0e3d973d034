# unlog

A terminal browser for shell history: filter it down, select entries, delete them in place.
Deleting rewrites the history file immediately, keeping every surviving entry's bytes as read.

The decisions of the program live in a library whose behaviour is stated in contracts and
proved with Verus; a thin front end does the terminal and file work.

## Layout

- `src/history.rs`: splitting history bytes into entries (zsh extended and plain formats),
  the display text of each entry, and writing entries back. Proved: a file written back
  unchanged is the same bytes and reads back as the same entries; deleting keeps the other
  entries' bytes; a file written after deleting reads back as the surviving entries unless a
  kept plain line ends up right after a kept line ending in a backslash.
- `src/text.rs`: sanitizing commands for display and hard-wrapping them into rows of a given
  number of columns.
- `src/app.rs`: the browser state: filters, selection, range selection, order, the cursor and
  the scroll window over wrapped entries.
- `src/keys.rs`: what each key does in each mode.
- `src/bar.rs`: the text of the filter bar, the status bar and the list lines.
- `src/input.rs`: editing the length filters digit by digit, and the deletion notice.
- `src/layout.rs`: the vertical split of the screen.
- `src/locate.rs`: which history file to edit, as a plan of steps the front end walks.
- `src/strings.rs`: the standard-library text operations the rest builds on.
- `app/`: the terminal front end: reading the environment and the history file, the event loop,
  drawing, and writing the file after a delete.

## Build

`verus` verifies `src/`; the front end is an ordinary binary built against the library.
