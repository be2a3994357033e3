# sysy_compiler

A compiler from SysY, a small subset of C, to RISC-V assembly, with its
passes verified in Verus.

The library (`src/`) holds the compiler's logic with contracts proved by Verus:

- `ast`: the syntax tree, the visitor trait and its walk functions.
- `sema`: renaming of names by scope (`name`), folding of constant
  expressions (`eval`) and the table of types (`symbol`).
- `ir`: the intermediate representation, held as indexed vectors of values,
  blocks and functions.
- `irgen`: generation of the intermediate representation from the tree.
- `opt`: passes on the intermediate representation: construction of static
  single assignment form, sparse conditional constant propagation, common
  subexpression elimination, and removal of unreachable blocks, empty blocks
  and trivial block arguments; `opt::optimize` runs them in order, testing
  before each pass what it takes of its input.
- `codegen`: liveness, register allocation, instruction selection with a
  16-byte aligned frame, peephole rewriting and the writing of the assembly
  text.

`app/` is the command-line driver: it reads the source file, calls the
library and writes the output. `tests/` exercise the library from
outside.
