//! Parsing, representation, and comparison of MIME media types
//! (`type/subtype; name=value`), following the RFC 7231 grammar.
//!
//! The parser walks the input bytes once and records byte offsets into the
//! original text instead of copying substrings. Up to three parameters are
//! held inline without a heap-allocated list, and the single common parameter
//! `charset=utf-8` is recognized and stored as a shorthand tag.

pub mod equality;
pub mod grammar;
pub mod laws;
pub mod model;
pub mod params;
pub mod parse;
pub mod token;
pub mod types;

pub use params::FastEqRes;
pub use params::Params;
pub use parse::parse;
pub use token::is_token;
pub use token::is_restricted_quoted_char;
pub use types::CanRange;
pub use types::Indexed;
pub use types::Mime;
pub use types::ParamSource;
pub use types::ParseError;
pub use types::Source;
