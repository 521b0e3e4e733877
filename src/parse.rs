use vstd::prelude::*;

use crate::grammar::{
    apply_attribute, apply_attributes, attribute_model, bare_set_cookie, cookie_string_model,
    is_keyed, lemma_cookie_string_is_ascii, lemma_first_index_at, lemma_keywords_ascii,
    lemma_set_cookie_is_ascii, pair_model, prepend_units, set_cookie_model, split_units,
    AttributeModel, CookiePairModel, SetCookieModel,
};
use crate::text::{
    byte_at, find_from, is_attribute_value_text, is_token_text, same_text, starts_with_text, EQUALS,
    SEMICOLON, SPACE,
};
use crate::types::{CookieParseError, CookiePair, SetCookie};

verus! {

/// The texts of a sequence of string slices.
pub open spec fn texts(v: Seq<&str>) -> Seq<Seq<char>> {
    v.map_values(|u: &str| u@)
}

/// The models of a sequence of cookie pairs.
pub open spec fn pairs_view(v: Seq<CookiePair>) -> Seq<CookiePairModel> {
    v.map_values(|p: CookiePair| p@)
}

/// What parsing a `Cookie` header gives: `Empty` for empty text, the pairs
/// of a well-formed header, `Syntax` for anything else.
pub open spec fn cookie_string_outcome(s: Seq<char>) -> Result<Seq<CookiePairModel>, CookieParseError> {
    if s.len() == 0 {
        Err(CookieParseError::ErrorCookieStringEmpty)
    } else {
        match cookie_string_model(s) {
            Some(ps) => Ok(ps),
            None => Err(CookieParseError::ErrorCookieStringSyntax),
        }
    }
}

/// The model of a result of `parse_cookie_string`.
pub open spec fn pairs_result_view(r: Result<Vec<CookiePair>, CookieParseError>) -> Result<
    Seq<CookiePairModel>,
    CookieParseError,
> {
    match r {
        Ok(v) => Ok(pairs_view(v@)),
        Err(e) => Err(e),
    }
}

/// Splits an ASCII header at each `"; "` delimiter.
fn split_header<'a>(s: &'a str) -> (r: Option<Vec<&'a str>>)
    requires
        s.is_ascii(),
    ensures
        match r {
            Some(v) => split_units(s@) == Some(texts(v@)) && forall|j: int|
                0 <= j < v@.len() ==> (#[trigger] v@[j]).is_ascii(),
            None => split_units(s@) is None,
        },
{
    let n = s.unicode_len();
    let mut units: Vec<&'a str> = Vec::new();
    let mut pos: usize = 0;
    proof {
        assert(s@.skip(0) =~= s@);
        if let Some(us) = split_units(s@) {
            assert(texts(units@) + us =~= us);
        }
    }
    loop
        invariant
            s.is_ascii(),
            n == s@.len(),
            pos <= n,
            split_units(s@) == prepend_units(texts(units@), split_units(s@.skip(pos as int))),
            forall|j: int| 0 <= j < units@.len() ==> (#[trigger] units@[j]).is_ascii(),
        decreases n - pos,
    {
        let k = find_from(s, n, pos, SEMICOLON);
        let ghost t = s@.skip(pos as int);
        proof {
            assert forall|j: int| 0 <= j < k - pos implies t[j] != ';' by {
                assert(t[j] == s@[pos + j]);
            }
            lemma_first_index_at(t, ';', k - pos);
        }
        let unit = s.substring_ascii(pos, k);
        let ghost before = units@;
        units.push(unit);
        proof {
            assert(texts(units@) =~= texts(before) + seq![unit@]);
        }
        if k == n {
            proof {
                assert(t =~= unit@);
                assert(texts(units@) =~= texts(before) + seq![t]);
            }
            return Some(units);
        }
        if k + 1 < n && byte_at(s, k + 1) == SPACE {
            proof {
                assert(t.take(k - pos) =~= unit@);
                assert(t[k - pos + 1] == s@[k + 1]);
                assert(t.skip(k - pos + 2) =~= s@.skip(k + 2));
                assert(texts(before) + (seq![unit@] + split_units(s@.skip(k + 2))->0) =~= texts(
                    units@,
                ) + split_units(s@.skip(k + 2))->0);
            }
            pos = k + 2;
        } else {
            proof {
                assert(t[k - pos] == ';');
                if k + 1 < n {
                    assert(t[k - pos + 1] == s@[k + 1]);
                }
            }
            return None;
        }
    }
}

/// Parses one `name=value` unit.
fn parse_cookie_pair(u: &str) -> (r: Result<CookiePair, CookieParseError>)
    requires
        u.is_ascii(),
    ensures
        match pair_model(u@) {
            Some(p) => r is Ok && r->Ok_0@ == p,
            None => r is Err && r->Err_0 == CookieParseError::ErrorCookieStringSyntax,
        },
{
    let n = u.unicode_len();
    let k = find_from(u, n, 0, EQUALS);
    proof {
        lemma_first_index_at(u@, '=', k as int);
    }
    if k == n {
        return Err(CookieParseError::ErrorCookieStringSyntax);
    }
    let name = u.substring_ascii(0, k);
    let value = u.substring_ascii(k + 1, n);
    proof {
        assert(name@ =~= u@.take(k as int));
        assert(value@ =~= u@.skip(k + 1));
    }
    if !is_token_text(name) || !is_token_text(value) {
        return Err(CookieParseError::ErrorCookieStringSyntax);
    }
    Ok(CookiePair { name: name.to_owned(), value: value.to_owned() })
}

/// Parses the value of a `Cookie` header: cookie pairs separated by `"; "`.
pub fn parse_cookie_string(input: &str) -> (r: Result<Vec<CookiePair>, CookieParseError>)
    ensures
        pairs_result_view(r) == cookie_string_outcome(input@),
{
    if input.is_empty() {
        return Err(CookieParseError::ErrorCookieStringEmpty);
    }
    if !input.is_ascii() {
        proof {
            if cookie_string_model(input@) is Some {
                lemma_cookie_string_is_ascii(input@);
            }
        }
        return Err(CookieParseError::ErrorCookieStringSyntax);
    }
    let units = match split_header(input) {
        Some(units) => units,
        None => return Err(CookieParseError::ErrorCookieStringSyntax),
    };
    let ghost us = texts(units@);
    let mut pairs: Vec<CookiePair> = Vec::new();
    let mut i: usize = 0;
    while i < units.len()
        invariant
            input@.len() > 0,
            split_units(input@) == Some(us),
            us == texts(units@),
            forall|j: int| 0 <= j < units@.len() ==> (#[trigger] units@[j]).is_ascii(),
            i <= units@.len(),
            pairs@.len() == i,
            forall|j: int|
                0 <= j < i ==> pair_model(#[trigger] us[j]) is Some && pairs@[j]@ == pair_model(
                    us[j],
                )->0,
        decreases units@.len() - i,
    {
        match parse_cookie_pair(units[i]) {
            Ok(p) => pairs.push(p),
            Err(e) => {
                proof {
                    assert(pair_model(us[i as int]) is None);
                }
                return Err(e);
            },
        }
        i = i + 1;
    }
    proof {
        assert(pairs_view(pairs@) =~= us.map_values(|u: Seq<char>| pair_model(u)->0));
    }
    Ok(pairs)
}

/// One attribute of a `Set-Cookie` header.
enum Attribute {
    HttpOnly,
    Secure,
    Domain(String),
    MaxAge(String),
    Path(String),
    Expires(String),
    Extension(String),
}

impl View for Attribute {
    type V = AttributeModel;

    closed spec fn view(&self) -> AttributeModel {
        match self {
            Attribute::HttpOnly => AttributeModel::HttpOnly,
            Attribute::Secure => AttributeModel::Secure,
            Attribute::Domain(v) => AttributeModel::Domain(v@),
            Attribute::MaxAge(v) => AttributeModel::MaxAge(v@),
            Attribute::Path(v) => AttributeModel::Path(v@),
            Attribute::Expires(v) => AttributeModel::Expires(v@),
            Attribute::Extension(u) => AttributeModel::Extension(u@),
        }
    }
}

/// The value after `key` in a keyed unit.
fn keyed_value<'a>(u: &'a str, key: &str) -> (r: Option<&'a str>)
    requires
        u.is_ascii(),
        key.is_ascii(),
    ensures
        r is Some == is_keyed(u@, key@),
        r is Some ==> r->0@ == u@.skip(key@.len() as int),
{
    if !starts_with_text(u, key) {
        return None;
    }
    let v = u.substring_ascii(key.unicode_len(), u.unicode_len());
    proof {
        assert(v@ =~= u@.skip(key@.len() as int));
    }
    if is_attribute_value_text(v) {
        Some(v)
    } else {
        None
    }
}

/// Parses one attribute unit of a `Set-Cookie` header.
fn parse_attribute(u: &str) -> (r: Option<Attribute>)
    requires
        u.is_ascii(),
    ensures
        match attribute_model(u@) {
            Some(a) => r is Some && r->0@ == a,
            None => r is None,
        },
{
    proof {
        lemma_keywords_ascii();
    }
    if same_text(u, "HttpOnly") {
        return Some(Attribute::HttpOnly);
    }
    if same_text(u, "Secure") {
        return Some(Attribute::Secure);
    }
    if let Some(v) = keyed_value(u, "Domain=") {
        return Some(Attribute::Domain(v.to_owned()));
    }
    if let Some(v) = keyed_value(u, "Max-Age=") {
        return Some(Attribute::MaxAge(v.to_owned()));
    }
    if let Some(v) = keyed_value(u, "Path=") {
        return Some(Attribute::Path(v.to_owned()));
    }
    if let Some(v) = keyed_value(u, "Expires=") {
        return Some(Attribute::Expires(v.to_owned()));
    }
    let extension = if is_token_text(u) {
        true
    } else {
        match parse_cookie_pair(u) {
            Ok(_) => true,
            Err(_) => false,
        }
    };
    if extension {
        Some(Attribute::Extension(u.to_owned()))
    } else {
        None
    }
}

/// Records one attribute in a `Set-Cookie` value.
fn set_attribute(c: &mut SetCookie, a: Attribute)
    ensures
        final(c)@ == apply_attribute(old(c)@, a@),
{
    match a {
        Attribute::HttpOnly => c.http_only = true,
        Attribute::Secure => c.secure = true,
        Attribute::Domain(v) => c.domain = Some(v),
        Attribute::MaxAge(v) => c.max_age = Some(v),
        Attribute::Path(v) => c.path = Some(v),
        Attribute::Expires(v) => c.expires = Some(v),
        Attribute::Extension(u) => {
            let ghost before = c.extensions@;
            c.extensions.push(u);
            proof {
                assert(c.extensions@.map_values(|e: String| e@) =~= before.map_values(
                    |e: String| e@,
                ).push(u@));
            }
        },
    }
}

/// The attribute models of the units after the first.
pub open spec fn attributes_of(us: Seq<Seq<char>>) -> Seq<AttributeModel> {
    us.skip(1).map_values(|u: Seq<char>| attribute_model(u)->0)
}

/// What parsing a `Set-Cookie` header gives: `Empty` for empty text, the
/// model of a well-formed header, `Syntax` for anything else.
pub open spec fn set_cookie_outcome(s: Seq<char>) -> Result<SetCookieModel, CookieParseError> {
    if s.len() == 0 {
        Err(CookieParseError::ErrorCookieStringEmpty)
    } else {
        match set_cookie_model(s) {
            Some(c) => Ok(c),
            None => Err(CookieParseError::ErrorCookieStringSyntax),
        }
    }
}

/// The model of a result of `parse_set_cookie`.
pub open spec fn set_cookie_result_view(r: Result<SetCookie, CookieParseError>) -> Result<
    SetCookieModel,
    CookieParseError,
> {
    match r {
        Ok(c) => Ok(c@),
        Err(e) => Err(e),
    }
}

/// Parses the value of a `Set-Cookie` header: a cookie pair, then
/// attributes, each after `"; "`.
pub fn parse_set_cookie(input: &str) -> (r: Result<SetCookie, CookieParseError>)
    ensures
        set_cookie_result_view(r) == set_cookie_outcome(input@),
{
    if input.is_empty() {
        return Err(CookieParseError::ErrorCookieStringEmpty);
    }
    if !input.is_ascii() {
        proof {
            if set_cookie_model(input@) is Some {
                lemma_set_cookie_is_ascii(input@);
            }
        }
        return Err(CookieParseError::ErrorCookieStringSyntax);
    }
    let units = match split_header(input) {
        Some(units) => units,
        None => return Err(CookieParseError::ErrorCookieStringSyntax),
    };
    let ghost us = texts(units@);
    let pair = parse_cookie_pair(units[0])?;
    let ghost base = bare_set_cookie(pair@);
    let mut cookie = SetCookie {
        pair,
        secure: false,
        http_only: false,
        max_age: None,
        domain: None,
        expires: None,
        path: None,
        extensions: Vec::new(),
    };
    proof {
        assert(cookie@.extensions =~= Seq::<Seq<char>>::empty());
        assert(attributes_of(us).take(0) =~= Seq::<AttributeModel>::empty());
    }
    let mut i: usize = 1;
    while i < units.len()
        invariant
            input@.len() > 0,
            split_units(input@) == Some(us),
            us == texts(units@),
            forall|j: int| 0 <= j < units@.len() ==> (#[trigger] units@[j]).is_ascii(),
            1 <= i <= units@.len(),
            pair_model(us[0]) == Some(base.pair),
            base == bare_set_cookie(base.pair),
            forall|j: int| 1 <= j < i ==> (#[trigger] attribute_model(us[j])) is Some,
            cookie@ == apply_attributes(base, attributes_of(us).take(i - 1)),
        decreases units@.len() - i,
    {
        match parse_attribute(units[i]) {
            Some(a) => {
                proof {
                    assert(attributes_of(us).take(i as int).drop_last() =~= attributes_of(us).take(
                        i - 1,
                    ));
                }
                set_attribute(&mut cookie, a);
            },
            None => {
                proof {
                    assert(attribute_model(us[i as int]) is None);
                }
                return Err(CookieParseError::ErrorCookieStringSyntax);
            },
        }
        i = i + 1;
    }
    proof {
        assert(attributes_of(us).take(i - 1) =~= attributes_of(us));
    }
    Ok(cookie)
}

} // verus!
