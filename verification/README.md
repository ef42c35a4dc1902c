# Size Scanner

Finds the largest files or folders below a set of directories.

- `src/` is the library: the ranking of the largest entries, the walk through the directories, and
  the tables that a list is exported as. Every function there is verified with Verus.
- `app/` is the desktop program around it: windows, dialogs, the file system, the trash and the
  clipboard.
- `tests/` runs the library.

The walk is a state machine (`src/scan.rs`). It asks for one thing at a time, such as the next entry
of the open directory, and is told what came of it. `src/tree.rs` says what it finds in a given
directory tree, and proves it.

Two functions of the standard library are taken at their documentation's word: `String::push`
(`src/text.rs`) and `char::is_whitespace` (`src/roots.rs`).
