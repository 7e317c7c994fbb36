# metacat (verified core)

A theorem prover whose terms are open hypergraphs, written in Verus: the
library in `src/` states its behaviour in `requires`/`ensures` contracts and
Verus proves them.

Layout:

- `src/` — the verified library.
  - `text`, `syntax`, `diagnostics`, `hover`, `arrow_details`, `analysis`:
    scanning `.hex` source text (tokens, delimiters, positions, declarations)
    for the editor.
  - `expr`, `raw`, `graph`, `load`, `deps`, `declaration`: h-expressions,
    raw theories and their merging, the syntax dependency graph and its
    topological order, numerals of the builtin `nat`, the arrows an arrow
    depends on, and the flat declaration format.
  - `resolve`: theories resolved in load order, their type maps and
    definitions interpreted into open hypergraphs.
  - `hypergraph`, `dual`, `spiders`, `check`, `inline`: lax open
    hypergraphs, their duals, explicit spiders, type evaluation over a term,
    and the rounds of inlining definitions.
  - `tree`, `term`, `lang`, `fol`, `interpreter`: rose trees and their text,
    first-order logic symbols and the interpreter of terms.
  - `project`, `manifest`, `unused`: project manifests and glob patterns,
    and the arrows that nothing in a project uses.
- `tests/` — tests of the library, run against the compiled crate.
- `app/` — the command line and the language server: file and network I/O,
  JSON, and the LSP transport, around the library.

`hexpr` parses and interprets h-expressions (their text is written in
`src/`, as `hexpr` writes it) and `open-hypergraphs` computes connected
components; both are called from `src/` through small
trusted wrappers whose contracts say what the library relies on.
