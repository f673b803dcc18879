# gorge_compiler

The front end of the Gorge language compiler, verified with Verus.

- `lexer`: turns source text into tokens with their spans.
- `parser`: turns tokens into the syntax tree of `ast`, with grammar
  relations that say which tokens write which nodes.
- `symbol`: the symbol table — scopes, name resolution, the types and
  members declared, and the cast rules between types.
- `compiler`: the declaration passes — types (pass 1), inheritance, enum
  values and `using` directives (pass 2), members, field layout and the
  bodies left for code generation (pass 3), and the numbering of each class
  after its super class.
- `ir`: the three-address intermediate code of method bodies.
- `optimizer`: basic blocks and their control flow, removal of dead code,
  reuse of common subexpressions within a block, and shortening of jump
  chains, each stated over the code it transforms.
- `constant`: folding of constant annotation arguments; floats are held as
  exact fractions.
- `highlight`, `progress`, `cancellation`, `span`, `text`: token
  highlighting, progress reporting, cooperative cancellation, diagnostics
  and text helpers.

`app/` holds the command-line program, which reads a file, runs the front
end and the declaration passes and prints the diagnostics. The translation
of method bodies into intermediate code, and the writing of a module file,
are not part of this crate.
