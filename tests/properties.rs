use cookie_parser::{parse_cookie_string, parse_set_cookie, CookieParseError, CookiePair, SetCookie};

fn pair(name: &str, value: &str) -> CookiePair {
    CookiePair { name: String::from(name), value: String::from(value) }
}

fn bare(name: &str, value: &str) -> SetCookie {
    SetCookie {
        pair: pair(name, value),
        secure: false,
        http_only: false,
        max_age: None,
        domain: None,
        expires: None,
        path: None,
        extensions: vec![],
    }
}

fn syntax_error_cookie(input: &str) {
    assert_eq!(parse_cookie_string(input), Err(CookieParseError::ErrorCookieStringSyntax), "{}", input);
}

fn syntax_error_set_cookie(input: &str) {
    assert_eq!(parse_set_cookie(input), Err(CookieParseError::ErrorCookieStringSyntax), "{}", input);
}

#[test]
fn pairs_come_back_in_order() {
    let r = parse_cookie_string("a=1; b=2; c=3; a=4").unwrap();
    assert_eq!(r, vec![pair("a", "1"), pair("b", "2"), pair("c", "3"), pair("a", "4")]);
}

#[test]
fn pairs_keep_octets_verbatim() {
    let r = parse_cookie_string("SID=31d4d96e407aad42; lang=en-US; x.y=!#$%&'()*+-.:<>?@[]^_`{|}~").unwrap();
    assert_eq!(
        r,
        vec![pair("SID", "31d4d96e407aad42"), pair("lang", "en-US"), pair("x.y", "!#$%&'()*+-.:<>?@[]^_`{|}~")]
    );
}

#[test]
fn empty_name_is_rejected() {
    syntax_error_cookie("=value");
    syntax_error_cookie("a=b; =value");
    syntax_error_cookie("a=b; =value; c=d");
    syntax_error_set_cookie("=value");
    syntax_error_set_cookie("=value; Secure");
}

#[test]
fn empty_value_is_rejected() {
    syntax_error_cookie("name=");
    syntax_error_cookie("a=b; name=");
    syntax_error_cookie("name=; a=b");
    syntax_error_set_cookie("name=");
    syntax_error_set_cookie("name=; HttpOnly");
}

#[test]
fn trailing_delimiter_is_rejected() {
    syntax_error_cookie("name=value;");
    syntax_error_cookie("name=value; ");
    syntax_error_cookie("a=b; c=d;");
    syntax_error_set_cookie("name=value;");
    syntax_error_set_cookie("name=value; Secure; ");
}

#[test]
fn delimiter_needs_exactly_one_space() {
    syntax_error_cookie("a=b;c=d");
    syntax_error_cookie("a=b;  c=d");
    syntax_error_cookie("a=b ;c=d");
    syntax_error_set_cookie("a=b;Secure");
}

#[test]
fn disallowed_characters_are_rejected() {
    syntax_error_cookie("/a=b");
    syntax_error_cookie("a/=b");
    syntax_error_cookie("a=/b");
    syntax_error_cookie("a=b/");
    syntax_error_cookie("a=b; c=d/e");
    syntax_error_cookie("a=\"b\"");
    syntax_error_cookie("a=b,c");
    syntax_error_cookie("a=b\\c");
    syntax_error_cookie("a b=c");
    syntax_error_cookie("a=b=c");
    syntax_error_cookie("a=b\tc");
    syntax_error_set_cookie("a/b=c");
    syntax_error_set_cookie("a=b/c; Secure");
}

#[test]
fn non_ascii_text_is_rejected() {
    syntax_error_cookie("n\u{e4}me=value");
    syntax_error_set_cookie("name=v\u{e4}lue");
    syntax_error_set_cookie("name=value; Path=/\u{e4}");
}

#[test]
fn empty_text_is_its_own_error() {
    assert_eq!(parse_cookie_string(""), Err(CookieParseError::ErrorCookieStringEmpty));
    assert_eq!(parse_set_cookie(""), Err(CookieParseError::ErrorCookieStringEmpty));
    syntax_error_cookie(" ");
    syntax_error_cookie(";");
    syntax_error_set_cookie("; ");
}

#[test]
fn set_cookie_baseline_has_defaults() {
    assert_eq!(parse_set_cookie("name=value"), Ok(bare("name", "value")));
}

#[test]
fn set_cookie_http_only_only() {
    let mut expected = bare("name", "value");
    expected.http_only = true;
    assert_eq!(parse_set_cookie("name=value; HttpOnly"), Ok(expected));
}

#[test]
fn set_cookie_domain_only() {
    let mut expected = bare("name", "value");
    expected.domain = Some(String::from("google.com"));
    assert_eq!(parse_set_cookie("name=value; Domain=google.com"), Ok(expected));
}

#[test]
fn set_cookie_extension_verbatim() {
    let mut expected = bare("name", "value");
    expected.extensions = vec![String::from("MyKey=MyValue")];
    assert_eq!(parse_set_cookie("name=value; MyKey=MyValue"), Ok(expected));
}

#[test]
fn set_cookie_four_fields_and_secure() {
    let mut expected = bare("name", "value");
    expected.max_age = Some(String::from("100000"));
    expected.path = Some(String::from("/path/to/file"));
    expected.domain = Some(String::from("google.com"));
    expected.secure = true;
    let input = "name=value; Max-Age=100000; Path=/path/to/file; Domain=google.com; Secure";
    assert_eq!(parse_set_cookie(input), Ok(expected));
}

#[test]
fn set_cookie_last_value_wins() {
    let mut expected = bare("a", "b");
    expected.domain = Some(String::from("second.org"));
    expected.path = Some(String::from("/two"));
    expected.http_only = true;
    let input = "a=b; Domain=first.org; HttpOnly; Path=/one; Domain=second.org; HttpOnly; Path=/two";
    assert_eq!(parse_set_cookie(input), Ok(expected));
}

#[test]
fn set_cookie_expires_value() {
    let mut expected = bare("a", "b");
    expected.expires = Some(String::from("20.09.2044"));
    assert_eq!(parse_set_cookie("a=b; Expires=20.09.2044"), Ok(expected));
}

#[test]
fn set_cookie_extensions_keep_order_and_text() {
    let mut expected = bare("a", "b");
    expected.extensions = vec![
        String::from("SameSite=Lax"),
        String::from("Partitioned"),
        String::from("HttpOnlyX"),
        String::from("secure"),
        String::from("Domain"),
    ];
    let input = "a=b; SameSite=Lax; Partitioned; HttpOnlyX; secure; Domain";
    assert_eq!(parse_set_cookie(input), Ok(expected));
}

#[test]
fn set_cookie_bad_attributes_are_rejected() {
    syntax_error_set_cookie("a=b; Domain=");
    syntax_error_set_cookie("a=b; Max-Age=");
    syntax_error_set_cookie("a=b; Path=");
    syntax_error_set_cookie("a=b; Expires=");
    syntax_error_set_cookie("a=b; Expires=Wed, 21 Oct 2015");
    syntax_error_set_cookie("a=b; Other=/x");
    syntax_error_set_cookie("a=b; =x");
    syntax_error_set_cookie("a=b; ");
}

#[test]
fn attribute_values_take_visible_characters() {
    let mut expected = bare("a", "b");
    expected.path = Some(String::from("/a=b,c\"d"));
    assert_eq!(parse_set_cookie("a=b; Path=/a=b,c\"d"), Ok(expected));
}

#[test]
fn parsing_again_gives_the_same_result() {
    let cookie = "a=1; b=2";
    assert_eq!(parse_cookie_string(cookie), parse_cookie_string(cookie));
    let set_cookie = "a=b; Secure; Path=/p; X=y";
    assert_eq!(parse_set_cookie(set_cookie), parse_set_cookie(set_cookie));
    let bad = "a=b;c";
    assert_eq!(parse_cookie_string(bad), parse_cookie_string(bad));
}

#[test]
fn pairs_written_out_give_the_text_back() {
    let input = "k1=v1; k2=v2; k3=v3";
    let pairs = parse_cookie_string(input).unwrap();
    let written: Vec<String> = pairs.iter().map(|p| format!("{}={}", p.name, p.value)).collect();
    let text = written.join("; ");
    assert_eq!(text, input);
    assert_eq!(parse_cookie_string(&text).unwrap(), pairs);
}
