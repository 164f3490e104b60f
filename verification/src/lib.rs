//! Generator of C preprocessor X-macros with variadic arguments.
//!
//! A declarative template (named arguments, a group size, a repeat body and
//! fixed fallback bodies) is turned into the text of one outer macro that
//! counts its trailing arguments and dispatches to an expansion specialised
//! for that count.  The work is done in two symbolic stages:
//!
//! - [`preprocessor`], the reference stage: strings may refer to named
//!   keys with `@{key}`, and keys may refer to other keys.  The key table is
//!   resolved by sweeps, then the keys in every other string are replaced.
//! - [`compiler`], the template stage: named arguments `${name}` are
//!   substituted in the texts around the repeat body, the repeat body is
//!   expanded once for each number of trailing arguments, and the macros
//!   are assembled.
//!
//! [`config`] holds the configuration that both stages work on, [`sigil`]
//! the characters that the two grammars give a role to, [`error`] the
//! failures, and [`text`] what is needed to write numbers and lists.
//!
//! Every function is verified against a contract over the text it reads
//! and writes, seen as a sequence of characters.

pub mod compiler;
pub mod config;
pub mod error;
pub mod preprocessor;
pub mod sigil;
pub mod text;
