use vstd::prelude::*;
use vstd::utf8::is_ascii_chars;

verus! {

/// A character allowed in a cookie name, a cookie value and an extension
/// token: visible ASCII except `"`, `,`, `;`, `\`, `/` and `=`.
pub open spec fn is_cookie_octet(c: char) -> bool {
    &&& '!' <= c <= '~'
    &&& c != '"'
    &&& c != ','
    &&& c != ';'
    &&& c != '\\'
    &&& c != '/'
    &&& c != '='
}

/// A character allowed in the value of `Domain`, `Max-Age`, `Path` and
/// `Expires`: visible ASCII except `;`.
pub open spec fn is_attribute_value_char(c: char) -> bool {
    '!' <= c <= '~' && c != ';'
}

/// One or more cookie octets.
pub open spec fn is_token(t: Seq<char>) -> bool {
    t.len() > 0 && forall|i: int| 0 <= i < t.len() ==> is_cookie_octet(#[trigger] t[i])
}

/// One or more attribute value characters.
pub open spec fn is_attribute_value(t: Seq<char>) -> bool {
    t.len() > 0 && forall|i: int| 0 <= i < t.len() ==> is_attribute_value_char(#[trigger] t[i])
}

/// Index of the first `c` in `s`, or the length of `s` when there is none.
pub open spec fn first_index_of(s: Seq<char>, c: char) -> int
    decreases s.len(),
{
    if s.len() == 0 {
        0
    } else if s[0] == c {
        0
    } else {
        1 + first_index_of(s.drop_first(), c)
    }
}

/// `first_index_of` is the position of the first `c`, or the end.
pub proof fn lemma_first_index_of(s: Seq<char>, c: char)
    ensures
        0 <= first_index_of(s, c) <= s.len(),
        forall|j: int| 0 <= j < first_index_of(s, c) ==> s[j] != c,
        first_index_of(s, c) < s.len() ==> s[first_index_of(s, c)] == c,
    decreases s.len(),
{
    if s.len() > 0 && s[0] != c {
        lemma_first_index_of(s.drop_first(), c);
        assert forall|j: int| 0 <= j < first_index_of(s, c) implies s[j] != c by {
            if j > 0 {
                assert(s[j] == s.drop_first()[j - 1]);
            }
        }
    }
}

/// The first `c` in `s` stands at `k` when none comes before and `k` holds one
/// or is the end.
pub proof fn lemma_first_index_at(s: Seq<char>, c: char, k: int)
    requires
        0 <= k <= s.len(),
        forall|j: int| 0 <= j < k ==> s[j] != c,
        k < s.len() ==> s[k] == c,
    ensures
        first_index_of(s, c) == k,
    decreases s.len(),
{
    if s.len() > 0 && s[0] != c {
        assert forall|j: int| 0 <= j < k - 1 implies s.drop_first()[j] != c by {
            assert(s[j + 1] != c);
        }
        lemma_first_index_at(s.drop_first(), c, k - 1);
    }
}

#[via_fn]
proof fn split_units_decreases(s: Seq<char>) {
    lemma_first_index_of(s, ';');
}

/// Splits a header at each `"; "` delimiter. `None` when some `;` is not
/// followed by a space (a `;` at the very end included).
pub open spec fn split_units(s: Seq<char>) -> Option<Seq<Seq<char>>>
    decreases s.len()
    via split_units_decreases
{
    let k = first_index_of(s, ';');
    if k >= s.len() {
        Some(seq![s])
    } else if k + 1 < s.len() && s[k + 1] == ' ' {
        match split_units(s.skip(k + 2)) {
            Some(rest) => Some(seq![s.take(k)] + rest),
            None => None,
        }
    } else {
        None
    }
}

/// `head` put before the units of `tail`, if `tail` splits.
pub open spec fn prepend_units(head: Seq<Seq<char>>, tail: Option<Seq<Seq<char>>>) -> Option<
    Seq<Seq<char>>,
> {
    match tail {
        Some(t) => Some(head + t),
        None => None,
    }
}

/// A cookie pair as mathematical text.
pub struct CookiePairModel {
    pub name: Seq<char>,
    pub value: Seq<char>,
}

/// A unit `name=value`, split at its first `=`; both sides must be tokens.
pub open spec fn pair_model(u: Seq<char>) -> Option<CookiePairModel> {
    let k = first_index_of(u, '=');
    if k < u.len() && is_token(u.take(k)) && is_token(u.skip(k + 1)) {
        Some(CookiePairModel { name: u.take(k), value: u.skip(k + 1) })
    } else {
        None
    }
}

/// Every character of a cookie pair is ASCII.
pub proof fn lemma_pair_is_ascii(u: Seq<char>)
    requires
        pair_model(u) is Some,
    ensures
        is_ascii_chars(u),
{
    let k = first_index_of(u, '=');
    lemma_first_index_of(u, '=');
    assert forall|i: int| 0 <= i < u.len() implies '\0' <= #[trigger] u[i] <= '\u{7f}' by {
        if i < k {
            assert(u.take(k)[i] == u[i]);
        } else if i > k {
            assert(u.skip(k + 1)[i - k - 1] == u[i]);
        }
    }
}

/// A header whose units are all ASCII is ASCII.
pub proof fn lemma_split_units_ascii(s: Seq<char>)
    requires
        split_units(s) is Some,
        forall|j: int|
            0 <= j < split_units(s)->0.len() ==> is_ascii_chars(#[trigger] split_units(s)->0[j]),
    ensures
        is_ascii_chars(s),
    decreases s.len(),
{
    let k = first_index_of(s, ';');
    lemma_first_index_of(s, ';');
    if k < s.len() {
        let us = split_units(s)->0;
        let rest = s.skip(k + 2);
        assert forall|j: int| 0 <= j < split_units(rest)->0.len() implies is_ascii_chars(
            #[trigger] split_units(rest)->0[j],
        ) by {
            assert(split_units(rest)->0[j] == us[j + 1]);
        }
        lemma_split_units_ascii(rest);
        assert(is_ascii_chars(us[0]));
        assert forall|i: int| 0 <= i < s.len() implies '\0' <= #[trigger] s[i] <= '\u{7f}' by {
            if i < k {
                assert(us[0][i] == s[i]);
            } else if i >= k + 2 {
                assert(rest[i - k - 2] == s[i]);
            }
        }
    } else {
        assert(is_ascii_chars(split_units(s)->0[0]));
    }
}

/// A well-formed `Cookie` header is ASCII.
pub proof fn lemma_cookie_string_is_ascii(s: Seq<char>)
    requires
        cookie_string_model(s) is Some,
    ensures
        is_ascii_chars(s),
{
    let us = split_units(s)->0;
    assert forall|j: int| 0 <= j < us.len() implies is_ascii_chars(#[trigger] us[j]) by {
        assert(pair_model(us[j]) is Some);
        lemma_pair_is_ascii(us[j]);
    }
    lemma_split_units_ascii(s);
}

/// The pairs of a `Cookie` header: every unit is a cookie pair.
pub open spec fn cookie_string_model(s: Seq<char>) -> Option<Seq<CookiePairModel>> {
    match split_units(s) {
        Some(us) => if forall|j: int| 0 <= j < us.len() ==> (#[trigger] pair_model(us[j])) is Some {
            Some(us.map_values(|u: Seq<char>| pair_model(u)->0))
        } else {
            None
        },
        None => None,
    }
}

/// One attribute of a `Set-Cookie` header, with its value as text.
pub enum AttributeModel {
    HttpOnly,
    Secure,
    Domain(Seq<char>),
    MaxAge(Seq<char>),
    Path(Seq<char>),
    Expires(Seq<char>),
    Extension(Seq<char>),
}

/// `u` is `key` followed by a non-empty attribute value.
pub open spec fn is_keyed(u: Seq<char>, key: Seq<char>) -> bool {
    key.len() <= u.len() && u.take(key.len() as int) == key && is_attribute_value(
        u.skip(key.len() as int),
    )
}

/// An extension attribute: a bare token, or `token=token`.
pub open spec fn is_extension(u: Seq<char>) -> bool {
    is_token(u) || pair_model(u) is Some
}

/// The attribute that a unit spells, tried in this order: `HttpOnly`,
/// `Secure`, `Domain=`, `Max-Age=`, `Path=`, `Expires=`, then an extension.
pub open spec fn attribute_model(u: Seq<char>) -> Option<AttributeModel> {
    if u == "HttpOnly"@ {
        Some(AttributeModel::HttpOnly)
    } else if u == "Secure"@ {
        Some(AttributeModel::Secure)
    } else if is_keyed(u, "Domain="@) {
        Some(AttributeModel::Domain(u.skip(7)))
    } else if is_keyed(u, "Max-Age="@) {
        Some(AttributeModel::MaxAge(u.skip(8)))
    } else if is_keyed(u, "Path="@) {
        Some(AttributeModel::Path(u.skip(5)))
    } else if is_keyed(u, "Expires="@) {
        Some(AttributeModel::Expires(u.skip(8)))
    } else if is_extension(u) {
        Some(AttributeModel::Extension(u))
    } else {
        None
    }
}

/// The attribute keywords are ASCII.
pub proof fn lemma_keywords_ascii()
    ensures
        is_ascii_chars("HttpOnly"@),
        is_ascii_chars("Secure"@),
        is_ascii_chars("Domain="@),
        is_ascii_chars("Max-Age="@),
        is_ascii_chars("Path="@),
        is_ascii_chars("Expires="@),
        "Domain="@.len() == 7,
        "Max-Age="@.len() == 8,
        "Path="@.len() == 5,
        "Expires="@.len() == 8,
{
    reveal_strlit("HttpOnly");
    reveal_strlit("Secure");
    reveal_strlit("Domain=");
    reveal_strlit("Max-Age=");
    reveal_strlit("Path=");
    reveal_strlit("Expires=");
}

/// A keyed unit with an ASCII key is ASCII.
pub proof fn lemma_keyed_is_ascii(u: Seq<char>, key: Seq<char>)
    requires
        is_keyed(u, key),
        is_ascii_chars(key),
    ensures
        is_ascii_chars(u),
{
    assert forall|i: int| 0 <= i < u.len() implies '\0' <= #[trigger] u[i] <= '\u{7f}' by {
        if i < key.len() {
            assert(u.take(key.len() as int)[i] == u[i]);
        } else {
            assert(u.skip(key.len() as int)[i - key.len()] == u[i]);
        }
    }
}

/// Every character of an attribute is ASCII.
pub proof fn lemma_attribute_is_ascii(u: Seq<char>)
    requires
        attribute_model(u) is Some,
    ensures
        is_ascii_chars(u),
{
    lemma_keywords_ascii();
    if pair_model(u) is Some {
        lemma_pair_is_ascii(u);
    } else if is_keyed(u, "Domain="@) {
        lemma_keyed_is_ascii(u, "Domain="@);
    } else if is_keyed(u, "Max-Age="@) {
        lemma_keyed_is_ascii(u, "Max-Age="@);
    } else if is_keyed(u, "Path="@) {
        lemma_keyed_is_ascii(u, "Path="@);
    } else if is_keyed(u, "Expires="@) {
        lemma_keyed_is_ascii(u, "Expires="@);
    }
}

/// A well-formed `Set-Cookie` header is ASCII.
pub proof fn lemma_set_cookie_is_ascii(s: Seq<char>)
    requires
        set_cookie_model(s) is Some,
    ensures
        is_ascii_chars(s),
{
    let us = split_units(s)->0;
    assert forall|j: int| 0 <= j < us.len() implies is_ascii_chars(#[trigger] us[j]) by {
        if j == 0 {
            lemma_pair_is_ascii(us[0]);
        } else {
            assert(attribute_model(us[j]) is Some);
            lemma_attribute_is_ascii(us[j]);
        }
    }
    lemma_split_units_ascii(s);
}

/// A `Set-Cookie` header as mathematical values.
pub struct SetCookieModel {
    pub pair: CookiePairModel,
    pub secure: bool,
    pub http_only: bool,
    pub max_age: Option<Seq<char>>,
    pub domain: Option<Seq<char>>,
    pub expires: Option<Seq<char>>,
    pub path: Option<Seq<char>>,
    pub extensions: Seq<Seq<char>>,
}

/// A pair with no attributes: both flags off, nothing else set.
pub open spec fn bare_set_cookie(pair: CookiePairModel) -> SetCookieModel {
    SetCookieModel {
        pair,
        secure: false,
        http_only: false,
        max_age: None,
        domain: None,
        expires: None,
        path: None,
        extensions: seq![],
    }
}

/// The effect of one attribute: a flag is set, a value replaces the one
/// before, an extension is appended.
pub open spec fn apply_attribute(c: SetCookieModel, a: AttributeModel) -> SetCookieModel {
    match a {
        AttributeModel::HttpOnly => SetCookieModel { http_only: true, ..c },
        AttributeModel::Secure => SetCookieModel { secure: true, ..c },
        AttributeModel::Domain(v) => SetCookieModel { domain: Some(v), ..c },
        AttributeModel::MaxAge(v) => SetCookieModel { max_age: Some(v), ..c },
        AttributeModel::Path(v) => SetCookieModel { path: Some(v), ..c },
        AttributeModel::Expires(v) => SetCookieModel { expires: Some(v), ..c },
        AttributeModel::Extension(u) => SetCookieModel { extensions: c.extensions.push(u), ..c },
    }
}

/// The attributes applied in order, from the first to the last.
pub open spec fn apply_attributes(c: SetCookieModel, attrs: Seq<AttributeModel>) -> SetCookieModel
    decreases attrs.len(),
{
    if attrs.len() == 0 {
        c
    } else {
        apply_attribute(apply_attributes(c, attrs.drop_last()), attrs.last())
    }
}

/// A `Set-Cookie` header: a cookie pair, then units that are all attributes.
pub open spec fn set_cookie_model(s: Seq<char>) -> Option<SetCookieModel> {
    match split_units(s) {
        Some(us) => match pair_model(us[0]) {
            Some(p) => if forall|j: int|
                1 <= j < us.len() ==> (#[trigger] attribute_model(us[j])) is Some {
                Some(
                    apply_attributes(
                        bare_set_cookie(p),
                        us.skip(1).map_values(|u: Seq<char>| attribute_model(u)->0),
                    ),
                )
            } else {
                None
            },
            None => None,
        },
        None => None,
    }
}

} // verus!
