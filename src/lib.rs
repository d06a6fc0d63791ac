//! A two-pass assembler for the Hack 16-bit instruction set, verified with Verus.
//!
//! The pipeline is: `strip_comments` (normalise the source text), `filter_labels`
//! (record label addresses), `parse_instructions`, `resolve_symbols` (labels and
//! variables become numeric addresses) and `Instruction::to_binary`.

pub mod assembler;
pub mod codes;
pub mod instruction;
pub mod laws;
pub mod symbols;
pub mod text;

pub use assembler::{assemble, encode_all, resolve_symbols, MAX_INSTRUCTIONS};
pub use instruction::{parse_instructions, AsmError, Instruction};
pub use symbols::{filter_labels, new_symbol_table, SymbolTable};
pub use text::strip_comments;
