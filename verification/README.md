# diamond_types (verified pieces)

Verified building blocks of a list CRDT, written in Verus.

- `dtrange`: `TimeSpan`, a half-open range of local versions.
- `rle`: the traits for runs that have a length, can be split, and can be merged.
- `rev_span`: `TimeSpanRev`, a span walked forwards or backwards, with the laws that
  splitting and re-joining a span gives it back and keeps every time at its offset.
- `append_rle`: `AppendRle`, pushing runs onto a list while merging them into the last
  run, for `Vec` and for a `SmallVec` of spans.
- `op_metrics` and `textinfo`: runs of text operations, the characters they keep, and a
  text's record of its operations (pushing operations, and reading them back whole or
  cut to a range of versions).
- `marker_tree`: a counted B-tree of runs held in index-linked arenas, and `cursor`, which
  moves back through the document, tells the CRDT location before a cursor, and counts the
  characters before it.

`tests/` runs the library on concrete values.
