use vstd::prelude::*;

use crate::grammar::{is_attribute_value, is_attribute_value_char, is_cookie_octet, is_token};

verus! {

/// The byte of `;`.
pub(crate) const SEMICOLON: u8 = 0x3b;

/// The byte of a space.
pub(crate) const SPACE: u8 = 0x20;

/// The byte of `=`.
pub(crate) const EQUALS: u8 = 0x3d;

/// A byte of an ASCII text is the code of the character at that place.
proof fn lemma_ascii_char(s: &str, i: int, b: u8)
    requires
        s.is_ascii(),
        0 <= i < s@.len(),
        s@[i] as u8 == b,
    ensures
        s@[i] == b as char,
{
    assert('\0' <= s@[i] <= '\u{7f}');
}

/// The character of an ASCII text at `i`, as a byte.
pub(crate) fn byte_at(s: &str, i: usize) -> (b: u8)
    requires
        s.is_ascii(),
        i < s@.len(),
    ensures
        s@[i as int] == b as char,
        b < 128,
{
    let b = s.get_ascii(i);
    proof {
        lemma_ascii_char(s, i as int, b);
    }
    b
}

/// Whether a byte is a cookie octet.
fn is_cookie_octet_byte(b: u8) -> (r: bool)
    ensures
        r == is_cookie_octet(b as char),
{
    0x21 <= b && b <= 0x7e && b != 0x22 && b != 0x2c && b != 0x3b && b != 0x5c && b != 0x2f
        && b != 0x3d
}

/// Whether a byte may stand in an attribute value.
fn is_attribute_value_byte(b: u8) -> (r: bool)
    ensures
        r == is_attribute_value_char(b as char),
{
    0x21 <= b && b <= 0x7e && b != 0x3b
}

/// The first place at or after `from` that holds `c`, or the length of `s`.
pub(crate) fn find_from(s: &str, n: usize, from: usize, c: u8) -> (k: usize)
    requires
        s.is_ascii(),
        n == s@.len(),
        from <= n,
        c < 128,
    ensures
        from <= k <= s@.len(),
        forall|j: int| from <= j < k ==> s@[j] != c as char,
        k < s@.len() ==> s@[k as int] == c as char,
{
    let mut k = from;
    while k < n
        invariant
            s.is_ascii(),
            n == s@.len(),
            from <= k <= n,
            c < 128,
            forall|j: int| from <= j < k ==> s@[j] != c as char,
        decreases n - k,
    {
        if byte_at(s, k) == c {
            return k;
        }
        k = k + 1;
    }
    k
}

/// Whether an ASCII text is a token: one or more cookie octets.
pub(crate) fn is_token_text(t: &str) -> (r: bool)
    requires
        t.is_ascii(),
    ensures
        r == is_token(t@),
{
    let n = t.unicode_len();
    if n == 0 {
        return false;
    }
    let mut i: usize = 0;
    while i < n
        invariant
            t.is_ascii(),
            n == t@.len(),
            i <= n,
            forall|j: int| 0 <= j < i ==> is_cookie_octet(#[trigger] t@[j]),
        decreases n - i,
    {
        if !is_cookie_octet_byte(byte_at(t, i)) {
            return false;
        }
        i = i + 1;
    }
    true
}

/// Whether an ASCII text is an attribute value: one or more of its characters.
pub(crate) fn is_attribute_value_text(t: &str) -> (r: bool)
    requires
        t.is_ascii(),
    ensures
        r == is_attribute_value(t@),
{
    let n = t.unicode_len();
    if n == 0 {
        return false;
    }
    let mut i: usize = 0;
    while i < n
        invariant
            t.is_ascii(),
            n == t@.len(),
            i <= n,
            forall|j: int| 0 <= j < i ==> is_attribute_value_char(#[trigger] t@[j]),
        decreases n - i,
    {
        if !is_attribute_value_byte(byte_at(t, i)) {
            return false;
        }
        i = i + 1;
    }
    true
}

/// Whether `key` begins `u`; both are ASCII.
pub(crate) fn starts_with_text(u: &str, key: &str) -> (r: bool)
    requires
        u.is_ascii(),
        key.is_ascii(),
    ensures
        r == (key@.len() <= u@.len() && u@.take(key@.len() as int) == key@),
{
    let n = u.unicode_len();
    let m = key.unicode_len();
    if m > n {
        return false;
    }
    let mut i: usize = 0;
    while i < m
        invariant
            u.is_ascii(),
            key.is_ascii(),
            n == u@.len(),
            m == key@.len(),
            m <= n,
            i <= m,
            forall|j: int| 0 <= j < i ==> u@[j] == key@[j],
        decreases m - i,
    {
        if byte_at(u, i) != byte_at(key, i) {
            assert(u@.take(m as int)[i as int] != key@[i as int]);
            return false;
        }
        i = i + 1;
    }
    assert(u@.take(m as int) =~= key@);
    true
}

/// Whether two ASCII texts are equal.
pub(crate) fn same_text(a: &str, b: &str) -> (r: bool)
    requires
        a.is_ascii(),
        b.is_ascii(),
    ensures
        r == (a@ == b@),
{
    if a.unicode_len() != b.unicode_len() {
        return false;
    }
    let r = starts_with_text(a, b);
    proof {
        if r {
            assert(a@ =~= a@.take(b@.len() as int));
        } else {
            assert(a@.take(b@.len() as int) =~= a@);
        }
    }
    r
}

} // verus!
