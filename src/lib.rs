//! Parsers for the values of the HTTP `Cookie` and `Set-Cookie` headers.
//!
//! `grammar` states the grammar and the values it gives as spec functions,
//! `parse` holds the two verified entry points, and `laws` proves what holds
//! of every input.
pub mod grammar;
pub mod laws;
pub mod parse;
mod text;
pub mod types;

pub use parse::{parse_cookie_string, parse_set_cookie};
pub use types::{CookieParseError, CookiePair, SetCookie};
