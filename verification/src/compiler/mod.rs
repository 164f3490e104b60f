//! The template stage: lexing of template strings, substitution of named
//! arguments, expansion of the repeat body and assembly of the macros.

pub mod arguments;
pub mod assembler;
pub mod repeat;
pub mod sequence;
pub mod surface;
pub mod token;
