# dupfinder

Find existing helpers and copied code in Rust, TypeScript/JavaScript and Functor
Lang. The results are evidence for review: normalized function bodies, repeated
three-statement windows, and token clones reported by jscpd, grouped by the
functions they sit in.

## Layout

- `src/` is the verified library (Verus). Each module states its behaviour in
  `requires`/`ensures` over spec functions and views:
  - `sitter`: the tree-sitter parser, tree and nodes behind wrappers, each value
    carrying the grammar, text and path it stands for; `syntax`: the parsed tree
    turned into a plain `SyntaxNode` tree.
  - `walk`, `extract`: function and type records from Rust, TypeScript/TSX and
    Functor sources; `index`: the markdown API index.
  - `normalized`: the binding-aware token shape of a callable or of a statement
    window; `renaming` and `comments`: laws that renamed bindings, comments and
    moved text leave a shape unchanged.
  - `bodies`, `blocks`: pairs of functions or statement windows with equal shapes.
  - `clones`, `gitdiff`: jscpd report entries, and the changed-line ranges of a diff.
  - `evidence`, `audit`, `grouping`, `order`: findings collected into function pairs,
    and pairs grouped into cleanup groups, structural evidence first.
  - `glob_set`: globset's globs, builder and set behind wrappers, each carrying
    its patterns; `exclude`: `--exclude` globs compiled with them.
- `app/` is the command-line program: argument parsing (clap), the directory walk
  (ignore), running git and jscpd, and JSON output (serde_json).
- `tests/` holds the tests of the library.
