# tracing_prism

A log viewer for the browser: it splits a log into several columns, each with its own text
filter (a regular expression, or plain text) and its own switches for the log levels. Logs
written by tracing's JSON formatter are shown compactly, with their fields in a table that
opens on click; any other text is shown line by line.

## Layout

- `src/` is the library, verified with Verus:
  - `control.rs`: the state that decides, for every column, which lines are visible, hidden
    or not displayed at all (a line that no column shows takes no space), and what each
    column is told after a new text, a filter change, a new or a deleted column.
  - `column.rs`: the decisions of one column: its filter switches, the regex built from the
    filter box, the classes of the lines of its view, and which entry a click belongs to.
  - `plain_entry.rs`, `json_entry.rs`, `entry.rs`: the lines of a log, how they are read,
    filtered and shown.
  - `json.rs`: the JSON values of a log line and how they are printed.
  - `pattern.rs`, `filter.rs`: regular expressions (through the `regex` crate) and filters.
  - `text.rs`, `html.rs`, `util.rs`: text helpers, the description of page elements, and the
    text selection check.
- `app/` is the browser program around it: the actors (thespis), the event listeners and the
  page itself (web-sys).
- `tests/` runs the library on concrete logs.
