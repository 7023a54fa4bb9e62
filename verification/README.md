# logview

A viewer for very large log files. The file is mapped into memory, only the starts of its lines
are indexed, and a line is decoded when it is shown.

- `src/` is the library: the index, the search, the marks, the look of a line, and what keys and
  buttons do. It is written in Verus, and every function in it is proved to do what its contract
  says. `src/outside.rs` lists what is taken on trust from other crates. The files whose names end
  in `laws.rs`, and the functions whose names begin with `law_`, state what holds of several
  functions together.
- `app/` is the program around it: the window, the file that is mapped, the threads that index and
  search, the dialogs.
- `tests/` runs the library on examples.

Marks are kept next to the log, in `<name of the log>.logview.jsonl`, one line of JSON for each.
A mark remembers where its line starts and how it begins. If another line stands there now, the
mark is shown as stale and is never jumped to; it can be looked for by its text.

Files are read as UTF-8, or as GB18030 if they do not begin with valid UTF-8. A character that the
first bytes of a file cut in two does not count against UTF-8.
