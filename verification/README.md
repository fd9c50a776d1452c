# ternary_tools

A simulator, an assembler and number conversions for a balanced-ternary machine,
written in Verus. Words are written in base 27 with one letter per sip: `.` is 0,
`a`..`m` are 1..13 and `n`..`z` are -13..-1.

- `src/` is the verified library. Every function there has a contract that Verus
  proves, and the `law_*` proof functions state properties across functions: codes
  and words correspond one to one, balanced ternary round-trips, memory reads back
  what was written, every instruction keeps the machine well formed, running in
  stretches is running once, and a saved state loads back.
- `app/` is the program around it: `tsim`, the interactive simulator (command line,
  files, the prompt), and, when run under the name `ttools`, the assembler
  (`ttools -a <input> <output>`) and the layout of code words as a data image
  (`ttools -e <input> <output>`).
- `tests/` runs the library on concrete values.
