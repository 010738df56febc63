# strprep

Verified text preprocessing for UTF-8 files, written in Verus.

Every operation takes the text as `&str` and returns the bytes of the result;
each has a `*_len` companion that gives the length of that result.

| Module | Operations |
| --- | --- |
| `trim` | `trim`, `trim_lines` |
| `transforms` | `collapse_whitespace`, `collapse_whitespace_as_space`, `collapse_whitespace_with`, `replace`, `strip_prefix` |
| `lines` | `strip_suffix`, `remove_empty_lines`, `lines` |
| `sql` | `sql`: comments removed, unquoted whitespace compacted, quoted text kept byte for byte |
| `json` | `json` (strict, minified) and `jsonc` (comments and trailing commas accepted) |
| `pipeline` | `process`: operations applied left to right |

Each contract states the exact output as a function of the input bytes, and
every operation is proved to turn valid UTF-8 into valid UTF-8, so its output
can be read back with `as_str`. The `*_laws` modules hold the laws proved
about the operations: SQL compaction and JSON minification are idempotent and
never lengthen their input, JSONC converts to strict JSON and agrees with
`json` on strict JSON, trimming removes
exactly the whitespace at the ends, collapsing is idempotent, empty prefixes
and suffixes change nothing, and so on.

`app/` holds the `include_str!` and `include_lines!` macros, which read a file
at compile time and run the pipeline over it.

The tests under `tests/` run the compiled library on concrete inputs.
