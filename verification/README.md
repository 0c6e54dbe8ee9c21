# lib

The middle of a hardware-description compiler, verified with Verus.

- `compiler::mir` — type inference for functions in the intermediate form:
  a unification context (`ty`) whose `unify` is proved to find a most general
  unifier and to refuse cyclic terms, the inference state and its per-opcode
  rules (`inference`), and the conversion of inferred functions into objects.
- `compiler::passes`, `compiler::rhif_passes` — checks and rewrites of objects:
  type correctness, data flow, clock-domain coherence, completeness of the
  symbol table, removal of useless casts and unused literals.
- `compiler::lower_rhif_to_rtl` and `compiler::rtl_passes` — lowering of
  objects to register-transfer form (every source register and every scratch
  value gets a register of its own) and the rewrites on that form;
  `compiler::driver` runs the lowering as the second stage of a design.
- `types`, `rhif`, `rtl` — kinds, paths, bit strings, and the two object forms.

The source-level front end (expressions and patterns), the data-flow graph,
constant propagation and Verilog generation are not part of this library.
Enumerations are not modelled: kinds are bits, signed bits, arrays, tuples,
structs (named, with named fields), signals and the empty kind.
