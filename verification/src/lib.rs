//! A Brainfuck toolchain: a parser that turns source text into a program of
//! instructions with resolved jumps, a step-by-step interpreter, and a
//! code generator that emits AArch64 machine code for the program.

pub mod stack;
pub mod ops;
pub mod cpu;
pub mod jit;
