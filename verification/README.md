# augur

A structure-aware, lossless context-mixing compressor, verified with Verus.

Compression is prediction: predict the next bit, code only the surprise. A
mixer blends a portfolio of predictors (local contexts, long-range matches,
format-aware parsers, a numeric model) and feeds one arithmetic coder. The
decoder runs the same predict, code, update loop.

What is proved:

- `decompress(compress(x))` is `x`, for every `x` (`container`, `codec`, `coder`);
- the models of encoder and decoder go through the same states (`codec`);
- a column that equals another one of its row plus a constant is foreseen from its
  third row on (its fourth, where it had another relation before), unless the
  continuation of its last step has been right at least as often. This is proved
  of rows of values (`columns`) and of the text of CSV lines (`csv_text`), within
  these limits: the fields do not share a place in the model's table (the first
  65536 CSV columns do not), the other column is among the 32 values of the row
  that are remembered, no third column breaks a distance that it had kept just as
  long, and, in text, numbers have at most 18 digits;
- anything that is not a container is refused, with a named reason (`container`);
- every executable function does what its contract says, without panic or
  overflow.

Layout:

- `src/container.rs`, `src/codec.rs`, `src/coder.rs`: the container, the coding
  loop, the arithmetic coder
- `src/predictor.rs`, `src/match_model.rs`: the models and the mixer
- `src/numeric.rs`, `src/relation.rs`, `src/tracking.rs`, `src/foresight.rs`,
  `src/columns.rs`, `src/csv_text.rs`: the numeric model, across rows and across
  columns
- `src/parser.rs` and `src/json.rs`, `src/csv.rs`, `src/sql.rs`, `src/xml.rs`,
  `src/generic.rs`: the format parsers
- `src/mode.rs`: telling formats apart
- `src/tables.rs`, `src/accuracy.rs`: the lookup tables, and how close they are to
  the functions they stand for
- `src/hashing.rs`, `src/ascii.rs`, `src/cli.rs`: small parts
- `app/`: the command-line program
- `tests/`: tests on concrete data

Container: `AUGR` | version (1) | mode (1) | original length (8, little-endian) |
arithmetic stream.
