//! A two-pass assembler for a small RV32 dialect.
//!
//! The first pass reads the source line by line into a list of pending
//! instructions and a table of labels; the second turns every label
//! reference into a displacement between fixed-width instruction slots.
//! A raw machine word is taken only where the caller's decoder accepts it
//! and it encodes back to itself; the encoding of the finished program is
//! the caller's as well.
//!
//! Every function is specified over the characters of its input and proved
//! against that specification.  The module `laws` holds what follows from
//! the specifications for every input.

pub mod assemble;
pub mod chars;
pub mod error;
pub mod fib;
pub mod instr;
pub mod labels;
pub mod laws;
pub mod line;
pub mod message;
pub mod number;
pub mod text;
pub mod token;
pub mod word;

pub use assemble::{assemble_rv32_mini_asm, resolve_labels, MAX_PROGRAM_LEN};
pub use error::{AsmError, ErrorKind, Mnemonic};
pub use fib::fib_u32;
pub use instr::{AluOp, BranchCondition, Instruction, MemOp, PendingInstr, PendingLine};
pub use labels::LabelTable;
pub use line::{parse_line, LineStep};
pub use token::{
    parse_i32, parse_mem_operand, parse_operands, parse_reg, parse_u32_word, strip_comment,
};
pub use word::{accept_raw_word, Decoded};
