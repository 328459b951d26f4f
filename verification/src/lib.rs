//! # grove_compiler
//!
//! A season-based compiler pipeline with balanced ternary bytecode emission.
//!
//! - **Spring**: lexing and parsing (source, tokens, program)
//! - **Summer**: scope validation of programs, and type checking of the
//!   typed expression grove
//! - **Autumn**: optimization (constant folding, identities, strength
//!   reduction, constant branches)
//! - **Winter**: emission of balanced ternary bytecode {-1, 0, +1}
//!
//! Numbers are exact rationals ([`num::Num`]), so that folding in autumn is
//! arithmetic the contracts can speak of.
pub mod ast;
pub mod autumn;
pub mod error;
pub mod num;
pub mod spring;
pub mod summer;
pub mod text;
pub mod token;
pub mod winter;

pub use ast::{BinOp, Constant, Expr, Program, Stmt, TernaryBytecode, TernaryInstruction, Trit};
pub use autumn::autumn;
pub use error::GroveError;
pub use num::Num;
pub use spring::spring;
pub use summer::summer;
pub use token::Token;
pub use winter::winter;
