# dcx

Verified core of `dcx`, a set of small command-line tools: sorting a UTF-8
text file in place, de-duplicating lines without sorting them first, and the
interactive selectors that audit and clean up local Git branches and linked
worktrees.

- `src/` is the library, written in Verus. Its functions carry contracts and
  are proved against them, except five small trusted wrappers around standard
  library and `ratatui` calls (`String::push`, `char::is_whitespace`, string
  equality, `sort_unstable` on strings, and `Layout::split` in `layout.rs`,
  whose result is named by the uninterpreted `middle_band`): their contracts
  are assumed as the documentation and source of those calls state them. The laws of
  the selectors (protected entries are never selected, deletion takes a
  second Enter, forced removal only by an explicit toggle) are proof
  functions.
- `app/` is the program around it: argument parsing, file and terminal I/O,
  and drawing the selector screens.
- `tests/` runs the library on concrete inputs.
