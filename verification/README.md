# nlpsvc

A small natural-language processing toolkit whose core is verified with
Verus: a regular-expression tokenizer built on a Thompson-style virtual
machine, and an annotated document that stores token spans in a sequence of
trees.

## Layout

- `src/` — the verified library.
  - `regex.rs` parses patterns; `compile.rs` translates them into VM code;
    `program.rs` is the instruction set.
  - `semantics.rs` says what a program means (closures, steps, one match
    attempt); `reinterp.rs` is the interpreter, proved against it, with the
    tokenizer's walk over a text and its laws (tokens tile the text, the
    longest match wins, a character is skipped only where nothing matches).
  - `language.rs` says what a regular expression matches and proves that the
    code of a rule reaches its `Match` on every text the rule matches;
    `soundness.rs` proves the converse, so every token is text that its rule
    matches.
  - `tokenizer.rs` builds tokenizers from rules, including the English one;
    `node_label.rs`, `tree_sequence.rs` and `document.rs` hold the annotated
    document; `sparse.rs` and `text.rs` are small helpers.
- `tests/` — tests of the library.
- `app/` — the command-line tokenizer: argument handling, reading the text,
  printing the tokens.
