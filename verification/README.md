# contextdiff_parser

A parser for context diff files, a segmenter that splits their hunks into context and
change segments, and a translator into unified diffs, written in Verus and proved against
its contracts.

## Layout

- `src/text.rs`: the text operations the parser needs (prefixes, search, trimming, byte
  columns, decimal numbers), with the call into std's `u64` parsing.
- `src/specification/`: the parts of a context diff (`file.rs`) and their views, and the
  modification timestamps (`timestamp.rs`), read and written by chrono.
- `src/parser/`: the line iterator, the errors, the grammar of a context diff as spec
  functions together with the parsing functions that follow it (`parser.rs`), and the
  segmenter.
- `src/translator/unified.rs`: the unified format as spec functions and the translation.
- `app/lib.rs`: the error types with `Display` and `std::error::Error` (derived by
  thiserror), converted to and from the library's own.
- `tests/`: the tests of the library.

## What is proved

Each parsing function returns exactly what the grammar gives for its input, error and
position included. Splitting a hunk keeps every line in order, gives non-empty segments
that alternate between context and changes, and never puts an unchanged line among the
changes. A parsed hunk holds as many lines as its headers announce, and its unified header
agrees with its body. Hunk lines and hunk headers read back what was written.

Inputs on which the computation would panic or not end are left out by the `requires` of
the functions concerned. `parse_checked` (and the `_checked` forms of the functions that
read hunk headers, hunks and file diffs) gives `None` exactly on the inputs where parsing
would panic. `is_translatable` and `hunk_is_translatable` decide, with a proof,
whether a diff or a hunk meets the `requires` of the translation.
