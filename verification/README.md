# rgt

A small immutable red/green tree library for syntax trees, verified with
Verus.

- `src/` is the library. Green trees (`green`) are parentless, shared
  elements that carry a kind, a width and a user payload; a node's width is
  the sum of its children's widths and its payload is composed by the
  language (`lang`). `builder` builds green trees from parser events. Red
  trees (`red`) are positioned views: each red node stands for a path of
  child indexes from a root green element, with its absolute offset. Offset
  queries, covering-node queries, token navigation, preorder walks and edits
  that rebuild the root are specified over that model.
- `tests/` runs the library on concrete trees.
- `app/` holds the debug dumps, which format kinds and payloads through
  `Debug`, and conversions to and from the `text_size` crate's types.
