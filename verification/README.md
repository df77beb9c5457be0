# snek

A compiler for two small teaching languages written as s-expressions, Boa
and Cobra, to x86-64 assembly, together with the pure parts of the runtime
that the compiled code links against. The library is written in Verus and
verified; `app/` holds the command-line driver and the runtime's I/O.

## Layout

- `src/sexpr.rs`, `src/env.rs`: the s-expression reader (`sexp`) and the
  variable environment (`im::HashMap`), reached through trusted wrappers with
  contracts.
- `src/boa/`, `src/cobra/`: for each language its syntax (`ast`), parser
  (`parse`), code generator (`compile`, `program`) and properties (`laws`).
  - `machine`: the instructions the code generator emits, and the proof that
    the generated text is exactly those instructions.
  - Boa's `machine` also models the registers and stack slots and proves that
    the code of every expression computes its value.
  - Cobra's `semantics` says what an expression means (values, `break`,
    run-time errors, with fuel for loops); `run` models the processor,
    including flags and jumps to labels; `operators` proves what the
    operators' instructions compute; `labels` proves that no label is defined
    twice; `jumps` proves that every jump goes to a label the same code
    defines, or to the enclosing loop's end; `correct` proves that the code of every expression does what the
    expression means, and that a whole compiled program ends with its value
    in `rax` or stops with the right error code.
- `src/runtime.rs`: reading the input, printing results and error messages.
- `tests/`: tests of the library on concrete programs.
