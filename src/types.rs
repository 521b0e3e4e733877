use vstd::prelude::*;

use crate::grammar::{CookiePairModel, SetCookieModel};

verus! {

/// Why a header could not be parsed.
#[derive(Debug, Clone, Copy, PartialEq, Eq, Structural)]
pub enum CookieParseError {
    /// The text does not follow the grammar.
    ErrorCookieStringSyntax,
    /// The text is empty.
    ErrorCookieStringEmpty,
}

/// The name and value of one cookie.
#[derive(Debug, PartialEq, Eq)]
pub struct CookiePair {
    pub name: String,
    pub value: String,
}

impl View for CookiePair {
    type V = CookiePairModel;

    open spec fn view(&self) -> CookiePairModel {
        CookiePairModel { name: self.name@, value: self.value@ }
    }
}

/// The contents of a `Set-Cookie` header: its cookie pair and attributes.
#[derive(Debug, PartialEq, Eq)]
pub struct SetCookie {
    pub pair: CookiePair,
    pub secure: bool,
    pub http_only: bool,
    pub max_age: Option<String>,
    pub domain: Option<String>,
    pub expires: Option<String>,
    pub path: Option<String>,
    pub extensions: Vec<String>,
}

/// The text of an optional string.
pub open spec fn opt_text(o: Option<String>) -> Option<Seq<char>> {
    match o {
        Some(s) => Some(s@),
        None => None,
    }
}

impl View for SetCookie {
    type V = SetCookieModel;

    open spec fn view(&self) -> SetCookieModel {
        SetCookieModel {
            pair: self.pair@,
            secure: self.secure,
            http_only: self.http_only,
            max_age: opt_text(self.max_age),
            domain: opt_text(self.domain),
            expires: opt_text(self.expires),
            path: opt_text(self.path),
            extensions: self.extensions@.map_values(|e: String| e@),
        }
    }
}

} // verus!
