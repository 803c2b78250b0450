# Xia

The compiler of Xia, an ahead-of-time compiled language with indentation-based
syntax and automatic reference counting, as a Verus library: every function of
`src/` has a contract, and Verus proves it.

## Layout

Each phase has a module with the mathematics of it and one with the code that
is proved to do just that.

| phase                 | stated in             | done by                   |
|-----------------------|-----------------------|---------------------------|
| tokens, indentation   | `lexer`               | `lexer`                   |
| syntax                | `grammar`             | `parser`                  |
| types and scopes      | `typing`              | `sema`                    |
| reference counting    | `counting`, `naming`  | `arc`, `naming`           |
| lowering to IR        | `lowering`, `runtime` | `codegen`, `runtime`      |
| IR text               | `printing`            | `printing`                |
| command line, linking | `driver`, `linker`    | `driver`, `linker`, `app/` |

What holds of the phases as a whole is proved in modules of its own:

- `layout`: blank lines and comments do not count.
- `resolution`, `declarations`: parsed programs name only what they declare, and
  still do once they were accepted.
- `spelling`: `elif` chains and nested conditionals are read as the same tree.
- `writing`, `agreement`, `acceptance`: what the analysis accepts is lowered,
  but for a short list of errors that are left to lowering; of accepted source
  texts, the references balance.
- `soundness`: blocks expire, matches are exhaustive, every expression is typed,
  and types are shown by the names that the program gave them.
- `recheck`: analyzing what was accepted changes nothing.
- `tidy`, `balance`: the references of every accepted function balance.
- `restoring`: counting references only inserts, and leaves functions alone that
  hold nothing on the heap.
- `shape`, `flow`, `order`: lowered code is a sequence of blocks, each of which
  ends once, every branch leads to a block of its function, and every value
  stands in the text behind what it is made of (`xia_release` aside, whose loop
  goes back).
- `machine`, `destructors`, `execution`: what the runtime functions, destructors
  and lowered variables, fields, ranges and short circuits do when they run.

`app/` is the command-line program: it reads files, hands the IR text to LLVM
through `inkwell`, and runs the linker.
