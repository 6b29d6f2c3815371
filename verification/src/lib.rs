//! A verified parser for a restricted makefile-style build description
//! language.
//!
//! The library turns raw text into a [`Makefile`]: declared variables,
//! comments, and build rules whose command tokens are classified as plain
//! arguments, flags, or variable references.  A second pass resolves every
//! variable reference against the declared variables, failing on the first
//! undeclared name in document order.

pub mod grammar;
pub mod laws;
pub mod makefile;
pub mod text;

pub use makefile::Makefile;
pub use makefile::MakefileCommandArg;
pub use makefile::MakefileRule;
pub use makefile::ParseError;
