# debug-log-tool

Tools for working with Bitcoin Core `debug.log` files, typically the
gzip-rotated logs of several nodes that run side by side, named
`debug.log-<date>-<node>.gz`.

- `merge` interleaves the logs of each day by timestamp into one
  `debug.log-<date>.zst`, with the name of its node before each line. `--check`
  sends the merged log back through the splitter, and compares hashes of what
  it takes out with hashes of the logs.
- `split` takes a `debug.log-<date>.zst` apart again, into one log per node.
- `templates` clusters the lines of a log into templates and counts them, per
  category. The clusters can be saved and loaded as JSON lines.

## Layout

`src/` is a library that is verified with Verus: every function in it carries a
contract over mathematical views of its data, and what holds of several of them
together is stated as a public proof function (`law_...`).

| module | what it holds |
| --- | --- |
| `text`, `lines`, `order` | characters, lines, the order of texts, sorting |
| `timestamp` | the two timestamp shapes and their order |
| `line`, `lexical`, `tokenizer` | a line's pieces, the shapes of values, tokens |
| `double` | doubles by their bits: thresholds and whole numbers |
| `drain` | the clustering tree |
| `json_write`, `json_read`, `round_trip` | the JSON of a saved state, and that it reads back |
| `analyzer` | one tree per category; save and load |
| `templates` | the report |
| `merge`, `interleave`, `check` | which files are merged, the merge, its check |
| `stream`, `day`, `summary` | merge and check line by line, and on whole logs; what is printed |
| `split` | taking a merged log apart |
| `merge_laws` | what holds of every merge |

`app/` is the program around it: the command line, files, compression, threads,
and the text form of doubles. `tests/` runs the library.

## What the laws leave out

- Out of a merged log the splitter takes each log character for character. That
  needs node names without a blank or a line end, and a line end at the end of
  each log, unless its last line is the last of the whole merge. A node whose
  log is empty has no line in the merge, and so gets no log from the splitter.
- Where the splitter undoes the merge, the check passes. It compares hashes of
  64 bits: a log that comes back changed passes too if both hash alike.
- A saved state is loaded as it was where each id and count is a number that a
  double holds, which all up to 2^53 are, and the threshold is finite.
