# hocon

A parser for HOCON configuration documents, written in Verus: every
function of the library has a contract, and Verus proves that the code meets
it.

* `src/lexer.rs`, `src/grammar.rs`, `src/parser.rs`: the tokens and the
  grammar, stated as mathematical functions, and the parser proved to
  compute them. Nesting is bounded (`MAX_DEPTH`), and an unclosed `${` is a
  fatal error.
* `src/locality.rs`: the grammar reads only what follows a position, so
  two objects (or arrays) written one after the other read as one.
* `src/value.rs`, `src/internal.rs`: parsed values and the flat list of
  path/value entries a document becomes.
* `src/builder.rs`: the entries placed into a tree, with substitutions
  resolved against the tree built so far, `+=` and arrays spliced after a
  substitution.
* `src/tree.rs`: the tree, the first pass of substitution, and the second
  pass that finishes the tree into a `Hocon` value.
* `src/loader.rs`: includes, and the whole load from text to document.
* `src/document.rs`: reading a finished document.
* `src/primitives.rs`: the few calls into std and `uuid` that are trusted.
* `app/`: reading files and the environment around the library.
