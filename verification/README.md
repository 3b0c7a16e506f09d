# resolve

A Django-template precompiler with machine-checked contracts. It tokenizes and
parses templates, flattens `{% extends %}` chains and `{% include %}` tags
against a template loader, renders the merged tree back to template text, and
keeps the bookkeeping of a project build: which templates changed, which depend
on which, where vendored packages put their templates, and where a build is
staged before it replaces the previous one.

## Layout

- `src/` is the library, written in Verus. Every function there carries a
  `requires`/`ensures` contract that Verus proves; the laws that relate
  several functions (what a merge keeps, what marking a template compiled
  does to the next staleness query, and so on) are public proof functions
  beside the code they speak of.
  - `compiler/`: lexer, parser (`syntax.rs` holds the mathematical model of
    each tag), code generation, tree walks, and `resolver/` for inheritance
    and inclusion.
  - `cache.rs`, `staleness.rs`, `discovery.rs`, `loader.rs`, `vendor.rs`,
    `swap.rs`, `config.rs`, `reporter.rs`, `validator/`: the build logic around
    the compiler.
  - `text.rs`: small string helpers shared by the modules.
- `tests/` runs the library on concrete templates and values.
- `app/` is the command-line program: argument parsing, the file system,
  settings files and package discovery. It hands the library plain values and
  performs the actions the library decides on.

## Collections

The maps and sets of templates, blocks and filters are vectors of pairs (or
membership predicates) rather than `rustc-hash` maps.  vstd states what a
`HashMap` holds only for hashers it knows to be valid; with `FxBuildHasher`
even an `insert` of an integer key followed by a lookup of that key does not
verify, so no contract about a map's contents could rest on it.  Such a map
is a std collection with a hasher vstd does not specify, so it is replaced
rather than declared as an outside type behind wrappers.  The vectors
keep the same lookup rule (the entry stored last wins) and their contents
are stated exactly.

## Checking

Run Verus on `src/lib.rs` to prove the library; the tests and the program
build with the ordinary Rust toolchain against the compiled library.
