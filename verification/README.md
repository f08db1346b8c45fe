# json-mask-fields

Select parts of a JSON value with a small fields query and drop the rest. The
query keeps the shape of the input: it prunes the branches you did not ask for
and leaves the rest in place.

## Query language

- `a,b` selects keys `a` and `b`.
- `a/b` selects key `b` inside `a`.
- `a(b,c)` selects `b` and `c` inside each element of array `a`.
- `*` is a wildcard over every key of the current object.
- `\` escapes the next character, so `a\/b` selects the literal key `a/b`
  and `\\*` the literal key `\*`. An escaped star alone, `\*`, selects the
  literal key `*`; inside a longer name it keeps its backslash (`a\*b`).

An explicit `null` value stays. A missing key is dropped. An empty object or
array is preserved.

## Layout

- `src/json.rs`: the JSON value `Json` (object entries kept in order) and its
  model `JsonV`. An object of `Json` may in principle hold a key twice; the
  laws that need unique keys say so (`json_wf`), and filtering keeps unique
  keys unique.
- `src/keyed.rs`: ordered maps as sequences of entries (lookup, insert that
  replaces in place, key uniqueness) and their lemmas.
- `src/mask.rs`: the compiled mask tree (`CompiledMask`, `Node`) and its model.
  `CompiledMask` is an insertion-ordered map with unique keys, kept as a type
  invariant over a `Vec` of entries.
- `src/scanner.rs`: the query scanner (`scan`).
- `src/compiler.rs`: the token folder and `compile`.
- `src/grammar.rs`: the query language as a grammar of selectors, and the proof
  that every well-formed query compiles to its direct meaning.
- `src/filter.rs`: the pruning engine (`filter`, `select`).
- `src/lib.rs`: `mask`, which compiles and filters in one call.
- `src/cli.rs`: the decisions of the command line program (accepting the fields
  argument, answering input that did not parse).
- `src/laws.rs`: properties of the language and of the engine, proved.
- `src/repeat.rs`: masking twice gives what masking once gives, and masking
  keeps object keys unique.
- `app/main.rs`: the command line program (`json-fieldmask <fields> [input.json]`).
  It reads the input, turns JSON text into `Json` and back with `serde_json`,
  and prints the result.

Every function in `src/` carries a contract that states its result exactly
over the models, and Verus proves it.

## Design notes

`CompiledMask` is an insertion-ordered map from key to node whose entries live
in a `Vec`. Its type invariant is that each key occurs once; `insert` puts a
new key last and replaces the node of a known key in place. The tree is
recursive (a node holds a mask again), and an outside map type cannot be
declared to Verus inside such a tree, so the map is the library's own.

`Json` is the library's model of a JSON value, so that the pruning logic can be
stated and proved over it. Turning JSON text into `Json` and back uses
`serde_json` and lives in `app/`.
