# prosemirror_model

The document model of a structured text editor, written in Verus. The
functions of the library in `src/` carry contracts that Verus proves; the
walks that hand nodes to a caller's function (`for_each`, `nodes_between`)
are proved to stay in bounds and terminate, but state nothing of the calls
they make.

## Layout

- `schema.rs`, `attrs.rs`: node types and mark types, each with an
  identity of its own, and attribute values.
- `content_expr.rs`, `automaton.rs`, `content.rs`: content expressions
  (`"paragraph+"`, `"heading? block*"`, ...) are tokenized, parsed, compiled
  to a nondeterministic automaton and then, by the subset construction, to
  the deterministic automaton that `ContentMatch` walks.
- `language.rs`, `only_words.rs`: the words an expression describes, walks
  through the nondeterministic automaton, and languages given to its states
  that every edge respects. With them, `ContentMatch::parse` states that the
  automaton it compiles accepts every word of the expression, has no two
  edges of one state with the same type name, and, where no range may
  repeat without end from zero times and no range's most is below its
  least, accepts nothing else.
- `matching.rs`, `fill.rs`, `wrap.rs`: matching fragments against content
  expressions, the shortest fill that completes content and the nodes
  filled in for it, the shortest chain of wrapper types.
- `mark.rs`: mark sets kept in rank order.
- `node.rs`, `fragment.rs`: nodes and fragments, sizes, cutting, joining of
  adjacent text.
- `diff.rs`: first and last positions at which two fragments differ.
- `resolvedpos.rs`: positions resolved to their ancestor path.
- `replace.rs`: slices and the replace algorithm.
- `util.rs`, `decimal.rs`: small helpers on strings.

Each module states its data as mathematical values (`NodeV`, `RPV`, `Seq`
of marks, ...) and the contracts speak of those. Properties that relate
several functions are public proof functions named `law_*`.

`app/` holds the editor window (built on `iced`), which is outside
verification. `tests/` runs the library on concrete documents.
