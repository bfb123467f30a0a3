# rocketcss_ast

Verified dense storage and direct topology for the compiler-owned CSS AST.

- `compilation` — the AST context: rules, rule lists, declaration blocks,
  declaration chains and interned effective keys, with every structural
  transaction (append, local insertion, retirement, adjacent-block merge,
  in-place and sequence replacement of declarations) specified against a
  ghost model of source order, list membership and chain membership, and a
  validator that accepts every reachable context and answers any other with
  the error of its first failing check.
- `storage` — fixed-width node columns with a mutation protocol, the shared
  overflow table of persistent lists, checkpoints, and the round-trip codecs
  between small values and slots.
- `selector_component` — selector components and their node encoding: the
  inline payload form, overflow fields in the shared table (rewritten in
  place when a component is re-encoded over one of the same variant), and
  decoding that gives every encoded component back.
- `source_order` — label arithmetic for the global source order.
- `effective_key` — cascade keys and the parser-local context.
- `records`, `ids`, `span`, `rules`, `selector`, `values`, `reification` —
  the records, identities and syntax values the stores hold.
- `fx_map` — the `rustc-hash` tables used for interning, behind trusted
  wrappers.
