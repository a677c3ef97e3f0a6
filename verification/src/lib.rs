//! A minimal stack-based bytecode virtual machine with a textual assembler.
//!
//! Assembly source text is translated, line by line, into a flat byte
//! program ([`assembler::assemble`]), and the program is executed against an
//! operand stack of 8-bit values ([`vm::VM`]).  Arithmetic is unsigned
//! 8-bit wraparound arithmetic.  Every function is specified against a
//! mathematical model of the instruction set: the encoding and the
//! mnemonic grammar live in [`op`], the fetch-decode-execute semantics
//! in [`vm`].

pub mod assembler;
pub mod op;
pub mod vm;
