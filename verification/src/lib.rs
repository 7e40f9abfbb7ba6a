//! NEXT — a contract language: exact rational arithmetic, immutable interned
//! values (same value = same handle), a lexer, surface-to-kernel desugaring and
//! the normalization phase, each stated and proved with Verus.

pub mod ast;
pub mod bignum;
pub mod contract;
pub mod desugar;
pub mod env;
pub mod rational;
pub mod surface;
pub mod text;
pub mod value;
pub mod intern;
pub mod shape;
pub mod interner;
pub mod lex;
pub mod link;
pub mod normalize;
pub mod lint;
