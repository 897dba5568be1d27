# converge

A verified library for converging divergent changes: changes that several commits lay claim to.
It finds the commit that the divergent commits evolved from, converges their authors and
descriptions where that can be done without asking, and puts the solution together.

At its centre are dominators. The commit from which the divergent commits evolved, and the value
that their attributes evolved from, are closest common dominators of flow graphs. The library
finds them by the iterative algorithm of Cooper, Harvey and Kennedy, and proves that what it finds
is what the definition asks for.

- `src/` is the library, with its contracts and proofs in Verus. `src/lib.rs` says what each
  module is for.
- `src/indexed.rs` holds all that is assumed: what the maps and sets of `indexmap` do.
- `tests/` runs the library on examples.
- `app/` reads evolutions from a repository and applies solutions to it.
