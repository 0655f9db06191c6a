//! A two-pass assembler for a Cyrillic-mnemonic dialect of AArch64 assembly.
//!
//! The library turns source text into the bytes of a `.text` section:
//! `utils` lexes lines and literals, `parser` sizes and emits lines in two
//! passes, `commands` encodes instructions and `slasm` holds the code buffer.
use vstd::prelude::*;

pub mod commands;
pub mod elf;
pub mod errors;
pub mod parser;
pub mod regs;
pub mod slasm;
pub mod utils;
