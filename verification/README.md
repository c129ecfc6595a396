# refined_diff

Marks the changed characters within a block of deleted lines and the block of
added lines that replaces it. Written in Verus: every function carries a
contract that says exactly what it returns, and every contract is proved.

`block_diff_runs` takes the two runs of lines and returns, for each line, spans
that spell it: plain text, marked text, and bars where only the other side has
something. `widen_line` renders the spans of a line, with a blank cell for each
bar that has no row of its own.

## Layout

- `ranges`, `chars`, `char_seq`: offset ranges, character classes, and one side
  of a block as a sequence of characters.
- `matching`, `dp`, `myers`: matching blocks, and the two searches for changes.
- `shifting`, `words`, `short_matches`, `weight`: the stages that tidy changes up.
- `spans`, `block`, `widen`: changes cut into spans, the whole comparison, and
  rendering.
- `laws`, `equality`, `shortest`, `survival`, `word_alignment`, `band`: what
  holds across functions, as proofs.

The weight of a change is a power with a fractional exponent. It is computed in
fixed point; `tests/weights.rs` holds the outcome against floating point.
