# brainfuck

A Brainfuck toolchain whose core is verified with Verus.

- `src/ops.rs`: the instructions, the parser (with optional merging of runs
  of identical commands) and its specification: the program a source text
  stands for, with every loop's two jumps naming each other. Also the check
  that brackets balance, and the loop depth of each instruction.
- `src/stack.rs`: the stack the parser keeps pending loops on.
- `src/cpu.rs`: the interpreter as a state machine. `Cpu::step` executes one
  instruction and reports what the outside world has to do (print, read);
  `Cpu::run` drives it against a given input; `exec_source` parses and runs.
- `src/jit.rs`: the AArch64 code generator, with the layout of the generated
  code and the branch displacements specified down to the byte.
- `app/`: the command line program: reading files, printing, reading key
  presses, and running the generated code in executable memory.

Usage: `brainfuck [--no-jit] <program.bf>...`; without arguments it runs a
built-in "Hello World!". Native code runs on AArch64 only; elsewhere the
program is interpreted.
