//! A stack-based postfix language: its reader, its interpreter, the analysis of its functions and
//! the plans by which they are compiled.
pub mod aot;
pub mod arithmetic_laws;
pub mod builtins;
pub mod types;
pub mod stack;
pub mod names;
pub mod semantics;
pub mod contract_laws;
pub mod definition_laws;
pub mod interp;
pub mod jit;
pub mod lexer;
pub mod line_laws;
pub mod machine;
pub mod move_laws;
pub mod report_laws;
pub mod state;
pub mod text_laws;
pub mod word_laws;
