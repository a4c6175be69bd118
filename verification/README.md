# graph_log

A viewer for `graph-log` lines: log lines that say which nodes of which
graphs exist and which messages pass between them.

    [graph-log] sup
    [graph-log] sup -start now-> fare:0
    [graph-log] fare:0 -> sup ...

- `src/` is the verified library (Verus):
  - `text`: characters of a string, Unicode white space, trimming, joining;
  - `tokenize`: the tokenizer and its specification;
  - `log`: cleaning tokens, `graph:node` names, parsing a line into a `Log`;
  - `keyed`: sequences of named items read as maps;
  - `display`: the graphs, nodes and connections kept of the log, and how
    each log entry changes them.
- `app/` reads the log file, feeds each line to the library and draws the
  state on the terminal with `tui` and `termion`.
- `tests/` runs the library on concrete lines.
