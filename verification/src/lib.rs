//! Macro-expansion core of a C/C++ preprocessor front end.
//!
//! The crate stores macro definitions in a name-keyed table, resolves macro
//! invocations found in a byte stream, and produces fully expanded byte
//! output.  Object macros are plain replacements; function macros replay an
//! action program (literal chunks, expanded arguments, token-paste and
//! stringify operands) against a parsed argument list, and the result is
//! rescanned so that macros produced by substitution are expanded in turn.
//! A per-macro in-use flag suppresses self-reference, so expansion always
//! terminates.

pub mod ascii;
pub mod cchar;
pub mod defines;
pub mod engine;
pub mod lexer;
pub mod pmacros;
pub mod table;

pub use lexer::{Lexer, Token};
pub use pmacros::{Action, IfState, Macro, MacroFunction, MacroObject, MacroType, PContext};
pub use table::MacroTable;
