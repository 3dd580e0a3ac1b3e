# logruster

Two log parsers, Drain and Logram, with their logic verified by Verus.

- `src/` is the verified library:
  - `text.rs`: Unicode white space, trimming, word splitting, decimal and
    hexadecimal rendering;
  - `format.rs`: the log format grammar (`<Field>` placeholders) and the
    line regexes the two parsers build from it;
  - `pattern.rs`: compiled `regex` and `fancy_regex` patterns;
  - `mask.rs`: masking the variable parts of a message with `<*>`;
  - `prefix_tree.rs`: Drain's fixed-depth prefix tree, with its
    well-formedness invariant and the laws of adding a cluster;
  - `frame.rs`: the `polars` data frame of parsed lines;
  - `paths.rs`: log file paths;
  - `drain.rs`: the Drain parser;
  - `ngram.rs`, `digest.rs`: Logram's n-gram dictionaries, the matching of
    messages against them, and template ids (MD5);
  - `logram.rs`: the Logram parser.
- `tests/` runs the library on concrete inputs.
- `app/` is the program around it: reading log files, printing the Drain
  tree, writing Logram's CSV files, and the C entry points.
