use vstd::prelude::*;

use crate::grammar::{
    cookie_string_model, first_index_of, is_cookie_octet, is_token, lemma_first_index_at,
    lemma_first_index_of, pair_model, prepend_units, set_cookie_model, split_units,
    apply_attribute, AttributeModel, CookiePairModel, SetCookieModel,
};

verus! {

/// `c` does not occur in `s`.
pub open spec fn lacks(s: Seq<char>, c: char) -> bool {
    forall|i: int| 0 <= i < s.len() ==> s[i] != c
}

/// The `"; "` delimiter.
pub open spec fn delimiter() -> Seq<char> {
    seq![';', ' ']
}

/// A pair whose name and value are both tokens.
pub open spec fn is_valid_pair(p: CookiePairModel) -> bool {
    is_token(p.name) && is_token(p.value)
}

/// All pairs are valid.
pub open spec fn all_valid(ps: Seq<CookiePairModel>) -> bool {
    forall|j: int| 0 <= j < ps.len() ==> is_valid_pair(#[trigger] ps[j])
}

/// `name=value`.
pub open spec fn render_pair(p: CookiePairModel) -> Seq<char> {
    p.name + seq!['='] + p.value
}

/// The pairs written as a `Cookie` header: `n1=v1; n2=v2; ...`.
pub open spec fn render_pairs(ps: Seq<CookiePairModel>) -> Seq<char>
    decreases ps.len(),
{
    if ps.len() <= 1 {
        if ps.len() == 0 {
            seq![]
        } else {
            render_pair(ps[0])
        }
    } else {
        render_pair(ps[0]) + delimiter() + render_pairs(ps.skip(1))
    }
}

/// Each pair written and followed by the delimiter: `n1=v1; ...; nk=vk; `.
pub open spec fn render_prefix(ps: Seq<CookiePairModel>) -> Seq<char>
    decreases ps.len(),
{
    if ps.len() == 0 {
        seq![]
    } else {
        render_pair(ps[0]) + delimiter() + render_prefix(ps.skip(1))
    }
}

/// A valid pair, written out, has no `;` and reads back as itself.
pub proof fn lemma_render_pair(p: CookiePairModel)
    requires
        is_valid_pair(p),
    ensures
        lacks(render_pair(p), ';'),
        pair_model(render_pair(p)) == Some(p),
{
    let u = render_pair(p);
    let k = p.name.len() as int;
    assert forall|i: int| 0 <= i < u.len() implies u[i] != ';' by {
        if i < k {
            assert(u[i] == p.name[i] && is_cookie_octet(p.name[i]));
        } else if i > k {
            assert(u[i] == p.value[i - k - 1] && is_cookie_octet(p.value[i - k - 1]));
        }
    }
    assert forall|j: int| 0 <= j < k implies u[j] != '=' by {
        assert(u[j] == p.name[j] && is_cookie_octet(p.name[j]));
    }
    lemma_first_index_at(u, '=', k);
    assert(u.take(k) =~= p.name);
    assert(u.skip(k + 1) =~= p.value);
}

/// A text without `;` is a single unit.
pub proof fn lemma_split_single(a: Seq<char>)
    requires
        lacks(a, ';'),
    ensures
        split_units(a) == Some(seq![a]),
{
    lemma_first_index_at(a, ';', a.len() as int);
}

/// A text without `;` before `"; "` is the first unit, the rest splits on.
pub proof fn lemma_split_cons(a: Seq<char>, b: Seq<char>)
    requires
        lacks(a, ';'),
    ensures
        split_units(a + delimiter() + b) == prepend_units(seq![a], split_units(b)),
{
    let s = a + delimiter() + b;
    let k = a.len() as int;
    assert forall|j: int| 0 <= j < k implies s[j] != ';' by {
        assert(s[j] == a[j]);
    }
    lemma_first_index_at(s, ';', k);
    assert(s.take(k) =~= a);
    assert(s.skip(k + 2) =~= b);
}

/// Putting a unit before a header that is not well-formed keeps it so.
pub proof fn lemma_rejected_cons(a: Seq<char>, b: Seq<char>)
    requires
        lacks(a, ';'),
        cookie_string_model(b) is None,
    ensures
        cookie_string_model(a + delimiter() + b) is None,
{
    lemma_split_cons(a, b);
    if let Some(ub) = split_units(b) {
        let j = choose|j: int| 0 <= j < ub.len() && (#[trigger] pair_model(ub[j])) is None;
        let us = split_units(a + delimiter() + b)->0;
        assert(us[j + 1] == ub[j]);
    }
}

/// The first unit of `u + rest` is `u`, when `u` has no `;` and `rest` is
/// empty or starts a new unit.
pub proof fn lemma_first_unit(u: Seq<char>, rest: Seq<char>)
    requires
        lacks(u, ';'),
        rest.len() == 0 || rest[0] == ';',
    ensures
        split_units(u + rest) is Some ==> split_units(u + rest)->0[0] == u,
{
    let s = u + rest;
    let k = u.len() as int;
    assert forall|j: int| 0 <= j < k implies s[j] != ';' by {
        assert(s[j] == u[j]);
    }
    if k < s.len() {
        assert(s[k] == rest[0]);
    }
    lemma_first_index_at(s, ';', k);
    if rest.len() == 0 {
        assert(s =~= u);
    } else {
        assert(s.take(k) =~= u);
    }
}

/// After any number of valid pairs, a unit that is not a cookie pair makes a
/// `Cookie` header ill-formed, whatever follows it.
pub proof fn lemma_bad_unit_rejected(ps: Seq<CookiePairModel>, u: Seq<char>, rest: Seq<char>)
    requires
        all_valid(ps),
        lacks(u, ';'),
        rest.len() == 0 || rest[0] == ';',
        pair_model(u) is None,
    ensures
        cookie_string_model(render_prefix(ps) + u + rest) is None,
    decreases ps.len(),
{
    if ps.len() == 0 {
        assert(render_prefix(ps) + u + rest =~= u + rest);
        lemma_first_unit(u, rest);
    } else {
        let a = render_pair(ps[0]);
        let tail = render_prefix(ps.skip(1)) + u + rest;
        assert(all_valid(ps.skip(1))) by {
            assert forall|j: int| 0 <= j < ps.skip(1).len() implies is_valid_pair(
                #[trigger] ps.skip(1)[j],
            ) by {
                assert(ps.skip(1)[j] == ps[j + 1]);
            }
        }
        lemma_bad_unit_rejected(ps.skip(1), u, rest);
        assert(is_valid_pair(ps[0]));
        lemma_render_pair(ps[0]);
        lemma_rejected_cons(a, tail);
        assert(render_prefix(ps) + u + rest =~= a + delimiter() + tail);
    }
}

/// A `Set-Cookie` header whose first unit is not a cookie pair is ill-formed,
/// whatever follows.
pub proof fn lemma_set_cookie_bad_pair_rejected(u: Seq<char>, rest: Seq<char>)
    requires
        lacks(u, ';'),
        rest.len() == 0 || rest[0] == ';',
        pair_model(u) is None,
    ensures
        set_cookie_model(u + rest) is None,
{
    lemma_first_unit(u, rest);
}

/// A unit that starts with `=` is not a cookie pair.
pub proof fn lemma_empty_name_not_pair(v: Seq<char>)
    ensures
        pair_model(seq!['='] + v) is None,
{
    let u = seq!['='] + v;
    lemma_first_index_at(u, '=', 0);
}

/// A unit that ends with `=` is not a cookie pair.
pub proof fn lemma_empty_value_not_pair(n: Seq<char>)
    ensures
        pair_model(n + seq!['=']) is None,
{
    let u = n + seq!['='];
    let k = first_index_of(u, '=');
    lemma_first_index_of(u, '=');
    if k < u.len() - 1 {
        assert(u.skip(k + 1)[u.len() - k - 2] == '=');
    }
}

/// A unit that holds a character that is neither a cookie octet nor `=` is
/// not a cookie pair.
pub proof fn lemma_bad_char_not_pair(u: Seq<char>, i: int)
    requires
        0 <= i < u.len(),
        !is_cookie_octet(u[i]),
        u[i] != '=',
    ensures
        pair_model(u) is None,
{
    let k = first_index_of(u, '=');
    lemma_first_index_of(u, '=');
    if k < u.len() {
        if i < k {
            assert(u.take(k)[i] == u[i]);
        } else {
            assert(u.skip(k + 1)[i - k - 1] == u[i]);
        }
    }
}

/// An empty name is never accepted: after any valid pairs, a unit `=value`
/// makes a `Cookie` header ill-formed, and so does a `Set-Cookie` header that
/// starts with one.
pub proof fn lemma_empty_name_rejected(ps: Seq<CookiePairModel>, v: Seq<char>, rest: Seq<char>)
    requires
        all_valid(ps),
        lacks(v, ';'),
        rest.len() == 0 || rest[0] == ';',
    ensures
        cookie_string_model(render_prefix(ps) + (seq!['='] + v) + rest) is None,
        set_cookie_model((seq!['='] + v) + rest) is None,
{
    let u = seq!['='] + v;
    assert(lacks(u, ';')) by {
        assert forall|i: int| 0 <= i < u.len() implies u[i] != ';' by {
            if i > 0 {
                assert(u[i] == v[i - 1]);
            }
        }
    }
    lemma_empty_name_not_pair(v);
    lemma_bad_unit_rejected(ps, u, rest);
    lemma_set_cookie_bad_pair_rejected(u, rest);
}

/// An empty value is never accepted: after any valid pairs, a unit `name=`
/// makes a `Cookie` header ill-formed, and so does a `Set-Cookie` header that
/// starts with one.
pub proof fn lemma_empty_value_rejected(ps: Seq<CookiePairModel>, n: Seq<char>, rest: Seq<char>)
    requires
        all_valid(ps),
        lacks(n, ';'),
        rest.len() == 0 || rest[0] == ';',
    ensures
        cookie_string_model(render_prefix(ps) + (n + seq!['=']) + rest) is None,
        set_cookie_model((n + seq!['=']) + rest) is None,
{
    let u = n + seq!['='];
    assert(lacks(u, ';')) by {
        assert forall|i: int| 0 <= i < u.len() implies u[i] != ';' by {
            if i < n.len() {
                assert(u[i] == n[i]);
            }
        }
    }
    lemma_empty_value_not_pair(n);
    lemma_bad_unit_rejected(ps, u, rest);
    lemma_set_cookie_bad_pair_rejected(u, rest);
}

/// A character that is neither a cookie octet nor `=` (such as `/`) anywhere
/// in a name or value is never accepted: in any unit of a `Cookie` header
/// after valid pairs, or in the pair that starts a `Set-Cookie` header.
pub proof fn lemma_bad_char_rejected(
    ps: Seq<CookiePairModel>,
    u: Seq<char>,
    i: int,
    rest: Seq<char>,
)
    requires
        all_valid(ps),
        lacks(u, ';'),
        0 <= i < u.len(),
        !is_cookie_octet(u[i]),
        u[i] != '=',
        rest.len() == 0 || rest[0] == ';',
    ensures
        cookie_string_model(render_prefix(ps) + u + rest) is None,
        set_cookie_model(u + rest) is None,
{
    lemma_bad_char_not_pair(u, i);
    lemma_bad_unit_rejected(ps, u, rest);
    lemma_set_cookie_bad_pair_rejected(u, rest);
}

/// A `;` at the end, or one not followed by a space, is never accepted after
/// valid pairs: `n=v;`, `n=v;x`, and a trailing `"; "` with nothing after it.
pub proof fn lemma_bad_delimiter_rejected(
    ps: Seq<CookiePairModel>,
    p: CookiePairModel,
    t: Seq<char>,
)
    requires
        all_valid(ps),
        is_valid_pair(p),
        t.len() == 0 || t[0] != ' ',
    ensures
        cookie_string_model(render_prefix(ps) + render_pair(p) + seq![';'] + t) is None,
        cookie_string_model(render_prefix(ps.push(p))) is None,
        set_cookie_model(render_pair(p) + seq![';'] + t) is None,
    decreases ps.len(),
{
    let a = render_pair(p);
    let s = a + seq![';'] + t;
    lemma_render_pair(p);
    assert forall|j: int| 0 <= j < a.len() implies s[j] != ';' by {
        assert(s[j] == a[j]);
    }
    lemma_first_index_at(s, ';', a.len() as int);
    if t.len() > 0 {
        assert(s[a.len() + 1int] == t[0]);
    }
    assert(split_units(s) is None);
    assert(all_valid(ps.push(p))) by {
        assert forall|j: int| 0 <= j < ps.push(p).len() implies is_valid_pair(
            #[trigger] ps.push(p)[j],
        ) by {
            if j < ps.len() {
                assert(ps.push(p)[j] == ps[j]);
            }
        }
    }
    assert(pair_model(seq![]) is None);
    lemma_bad_unit_rejected(ps.push(p), seq![], seq![]);
    assert(render_prefix(ps.push(p)) + seq![] + seq![] =~= render_prefix(ps.push(p)));
    lemma_bad_delimiter_prefix(ps, s);
    assert(render_prefix(ps) + s =~= render_prefix(ps) + render_pair(p) + seq![';'] + t);
}

/// Valid pairs put before a text that does not split leave it unsplittable.
proof fn lemma_bad_delimiter_prefix(ps: Seq<CookiePairModel>, s: Seq<char>)
    requires
        all_valid(ps),
        split_units(s) is None,
    ensures
        cookie_string_model(render_prefix(ps) + s) is None,
    decreases ps.len(),
{
    if ps.len() == 0 {
        assert(render_prefix(ps) + s =~= s);
    } else {
        let tail = render_prefix(ps.skip(1)) + s;
        assert(all_valid(ps.skip(1))) by {
            assert forall|j: int| 0 <= j < ps.skip(1).len() implies is_valid_pair(
                #[trigger] ps.skip(1)[j],
            ) by {
                assert(ps.skip(1)[j] == ps[j + 1]);
            }
        }
        lemma_bad_delimiter_prefix(ps.skip(1), s);
        assert(is_valid_pair(ps[0]));
        lemma_render_pair(ps[0]);
        lemma_rejected_cons(render_pair(ps[0]), tail);
        assert(render_prefix(ps) + s =~= render_pair(ps[0]) + delimiter() + tail);
    }
}

/// A cookie pair reads back as the text it came from.
pub proof fn lemma_pair_renders_back(u: Seq<char>)
    requires
        pair_model(u) is Some,
    ensures
        render_pair(pair_model(u)->0) == u,
{
    let k = first_index_of(u, '=');
    lemma_first_index_of(u, '=');
    assert(u.take(k) + seq!['='] + u.skip(k + 1) =~= u);
}

/// Valid pairs written as a header split into the written pairs.
proof fn lemma_split_rendered(ps: Seq<CookiePairModel>)
    requires
        ps.len() > 0,
        all_valid(ps),
    ensures
        split_units(render_pairs(ps)) == Some(ps.map_values(|p: CookiePairModel| render_pair(p))),
    decreases ps.len(),
{
    assert(is_valid_pair(ps[0]));
    lemma_render_pair(ps[0]);
    if ps.len() == 1 {
        lemma_split_single(render_pair(ps[0]));
        assert(ps.map_values(|p: CookiePairModel| render_pair(p)) =~= seq![render_pair(ps[0])]);
    } else {
        assert(all_valid(ps.skip(1))) by {
            assert forall|j: int| 0 <= j < ps.skip(1).len() implies is_valid_pair(
                #[trigger] ps.skip(1)[j],
            ) by {
                assert(ps.skip(1)[j] == ps[j + 1]);
            }
        }
        lemma_split_rendered(ps.skip(1));
        lemma_split_cons(render_pair(ps[0]), render_pairs(ps.skip(1)));
        assert(seq![render_pair(ps[0])] + ps.skip(1).map_values(
            |p: CookiePairModel| render_pair(p),
        ) =~= ps.map_values(|p: CookiePairModel| render_pair(p)));
    }
}

/// Any non-empty list of pairs with valid names and values, written as
/// `n1=v1; n2=v2; ...; nk=vk`, parses back to exactly those pairs, in order.
pub proof fn lemma_cookie_string_of_pairs(ps: Seq<CookiePairModel>)
    requires
        ps.len() > 0,
        all_valid(ps),
    ensures
        cookie_string_model(render_pairs(ps)) == Some(ps),
{
    lemma_split_rendered(ps);
    let us = ps.map_values(|p: CookiePairModel| render_pair(p));
    assert forall|j: int| 0 <= j < us.len() implies (#[trigger] pair_model(us[j])) == Some(
        ps[j],
    ) by {
        assert(is_valid_pair(ps[j]));
        lemma_render_pair(ps[j]);
    }
    assert(us.map_values(|u: Seq<char>| pair_model(u)->0) =~= ps);
}

/// A well-formed `Cookie` header is exactly its pairs written out again, so
/// parsing that text again gives the same pairs.
pub proof fn lemma_cookie_string_renders_back(s: Seq<char>)
    requires
        cookie_string_model(s) is Some,
    ensures
        render_pairs(cookie_string_model(s)->0) == s,
        cookie_string_model(render_pairs(cookie_string_model(s)->0)) == cookie_string_model(s),
    decreases s.len(),
{
    let k = first_index_of(s, ';');
    lemma_first_index_of(s, ';');
    let us = split_units(s)->0;
    let ps = cookie_string_model(s)->0;
    assert(pair_model(us[0]) is Some);
    lemma_pair_renders_back(us[0]);
    if k < s.len() {
        let rest = s.skip(k + 2);
        let ur = split_units(rest)->0;
        assert forall|j: int| 0 <= j < ur.len() implies (#[trigger] pair_model(ur[j])) is Some by {
            assert(ur[j] == us[j + 1]);
            assert(pair_model(us[j + 1]) is Some);
        }
        lemma_cookie_string_renders_back(rest);
        assert(ps.skip(1) =~= cookie_string_model(rest)->0);
        assert(s.take(k) + delimiter() + rest =~= s);
    }
}

/// A repeated `HttpOnly` or `Secure` changes nothing more.
pub proof fn lemma_repeated_flag_is_idempotent(c: SetCookieModel)
    ensures
        apply_attribute(apply_attribute(c, AttributeModel::HttpOnly), AttributeModel::HttpOnly)
            == apply_attribute(c, AttributeModel::HttpOnly),
        apply_attribute(apply_attribute(c, AttributeModel::Secure), AttributeModel::Secure)
            == apply_attribute(c, AttributeModel::Secure),
{
}

/// Of two values of `Domain`, `Max-Age`, `Path` or `Expires`, the later one
/// is kept and the earlier one is discarded.
pub proof fn lemma_later_value_wins(c: SetCookieModel, v: Seq<char>, w: Seq<char>)
    ensures
        apply_attribute(apply_attribute(c, AttributeModel::Domain(v)), AttributeModel::Domain(w))
            == apply_attribute(c, AttributeModel::Domain(w)),
        apply_attribute(apply_attribute(c, AttributeModel::MaxAge(v)), AttributeModel::MaxAge(w))
            == apply_attribute(c, AttributeModel::MaxAge(w)),
        apply_attribute(apply_attribute(c, AttributeModel::Path(v)), AttributeModel::Path(w))
            == apply_attribute(c, AttributeModel::Path(w)),
        apply_attribute(apply_attribute(c, AttributeModel::Expires(v)), AttributeModel::Expires(w))
            == apply_attribute(c, AttributeModel::Expires(w)),
{
}

} // verus!
