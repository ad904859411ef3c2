pub mod assembler;
pub mod bank;
pub mod bigint;
pub mod bitvec;
pub mod diagn;
pub mod eval;
pub mod expect;
pub mod resolve;
pub mod rule;
pub mod state;
pub mod symbols;
pub mod text;
pub mod theorems;
pub mod value;
