//! Validation and structural decomposition of RFC 822 style email addresses.
//!
//! The crate is organised as a small recursive-descent matcher for the RFC 822
//! address grammar together with an extractor that populates a flat [`Email`]
//! record from the matched productions.
//!
//! * [`chars`] — the lexical character classes of the grammar.
//! * [`grammar`] — the mathematical model: specification functions that define,
//!   for every rule of the grammar, which spans of the input it matches and
//!   which named productions occur inside the match, in pre-order.
//! * [`parser`] — the executable matcher, proved to return exactly what the
//!   model says.
//! * [`email`] — the [`Email`] record, the extraction algorithm, and
//!   [`Email::parse`].
//! * [`laws`] — proved statements about parsing and extraction as a whole.

pub mod chars;
pub mod email;
pub mod grammar;
pub mod laws;
pub mod parser;

pub use email::Email;
pub use email::SyntaxError;
