use std::cmp::Ordering;

use mime_parse::parse;
use mime_parse::CanRange;
use mime_parse::FastEqRes;
use mime_parse::Mime;
use mime_parse::ParseError;

fn ok(s: &str) -> Mime {
    parse(s.as_bytes(), CanRange::Yes).unwrap()
}

fn err(s: &str, can_range: CanRange) -> ParseError {
    parse(s.as_bytes(), can_range).unwrap_err()
}

fn pairs(m: &Mime) -> Vec<(Vec<u8>, Vec<u8>)> {
    let mut it = m.params();
    let mut out = Vec::new();
    while let Some((n, v)) = it.next() {
        out.push((n.to_vec(), v.to_vec()));
    }
    out
}

#[test]
fn no_params_text_kept_verbatim() {
    let m = ok("text/PLAIN");
    assert_eq!(m.as_bytes(), b"text/PLAIN");
    assert_eq!(m.type_(), b"text");
    assert_eq!(m.subtype(), b"PLAIN");
    assert_eq!(m.suffix(), None);
    assert!(!m.has_params());
}

#[test]
fn suffix_is_after_last_plus() {
    let m = ok("application/vnd.api+json");
    assert_eq!(m.type_(), b"application");
    assert_eq!(m.subtype(), b"vnd.api");
    assert_eq!(m.suffix(), Some(&b"json"[..]));
}

#[test]
fn round_trip_no_params() {
    let m = ok("Image/SVG+xml");
    let again = parse(m.as_bytes(), CanRange::Yes).unwrap();
    assert!(m.eq_mime(&again));
    assert_eq!(m.as_bytes(), again.as_bytes());
}

#[test]
fn round_trip_with_params() {
    for s in [
        "TEXT/Plain; Charset=UTF-8",
        "text/plain;charset=UTF-8",
        "a/b;x=1;y=2",
        "a/b;p1=1;p2=2;p3=3;p4=4",
        "text/plain; a=\"q;uoted\"",
    ] {
        let m = ok(s);
        let again = parse(m.as_bytes(), CanRange::Yes).unwrap();
        assert!(m.eq_mime(&again), "round trip failed for {}", s);
    }
}

#[test]
fn param_order_does_not_matter() {
    let a = ok("a/b;x=1;y=2");
    let b = ok("a/b;y=2;x=1");
    assert!(a.eq_mime(&b));
    assert!(b.eq_mime(&a));
    let c = ok("a/b;x=1;y=3");
    assert!(!a.eq_mime(&c));
}

#[test]
fn star_star_only_with_wildcards() {
    let m = parse(b"*/*", CanRange::Yes).unwrap();
    assert_eq!(m.type_(), b"*");
    assert_eq!(m.subtype(), b"*");
    assert!(matches!(err("*/*", CanRange::No), ParseError::InvalidRange));
}

#[test]
fn subtype_wildcard_rules() {
    let m = ok("text/*");
    assert_eq!(m.subtype(), b"*");
    let m = ok("text/*;q=1");
    assert_eq!(m.subtype(), b"*");
    assert!(m.has_params());

    assert!(matches!(
        err("te*t/plain", CanRange::Yes),
        ParseError::InvalidToken { pos: 2, byte: b'*' }
    ));
    assert!(matches!(
        err("text/pla*n", CanRange::Yes),
        ParseError::InvalidToken { pos: 8, byte: b'*' }
    ));
    assert!(matches!(
        err("text/*x", CanRange::Yes),
        ParseError::InvalidToken { pos: 6, byte: b'x' }
    ));
    assert!(matches!(
        err("text/*", CanRange::No),
        ParseError::InvalidToken { pos: 5, byte: b'*' }
    ));
}

#[test]
fn charset_utf8_shorthand_and_explicit_are_equal() {
    let a = ok("text/plain; charset=utf-8");
    let b = ok("text/plain;charset=UTF-8");
    assert!(a.eq_mime(&b));
    assert!(b.eq_mime(&a));
    assert_eq!(pairs(&a), vec![(b"charset".to_vec(), b"utf-8".to_vec())]);
    assert_eq!(pairs(&b), vec![(b"charset".to_vec(), b"utf-8".to_vec())]);
    assert_eq!(a.as_bytes(), b"text/plain; charset=utf-8");
    assert_eq!(b.as_bytes(), b"text/plain;charset=utf-8");
}

#[test]
fn uppercase_shorthand_is_normalized() {
    let m = ok("TEXT/Plain; Charset=UTF-8");
    assert_eq!(m.as_bytes(), b"text/plain; charset=utf-8");
    assert_eq!(pairs(&m), vec![(b"charset".to_vec(), b"utf-8".to_vec())]);
}

#[test]
fn names_lowercased_values_kept_except_charset() {
    let m = ok("A/B;Name=Value");
    assert_eq!(m.as_bytes(), b"a/b;name=Value");
    assert_eq!(pairs(&m), vec![(b"name".to_vec(), b"Value".to_vec())]);
}

#[test]
fn malformed_inputs() {
    assert!(matches!(err("text", CanRange::Yes), ParseError::MissingSlash));
    assert!(matches!(err("", CanRange::Yes), ParseError::MissingSlash));
    assert!(matches!(
        err("text/plain;charset", CanRange::Yes),
        ParseError::MissingEqual
    ));
    assert!(matches!(
        err("text/plain; a=\"unterminated", CanRange::Yes),
        ParseError::MissingQuote
    ));
    assert!(matches!(
        err("text/plain; a=b c", CanRange::Yes),
        ParseError::InvalidToken { pos: 15, byte: b' ' }
    ));
    assert!(matches!(
        err("/plain", CanRange::Yes),
        ParseError::InvalidToken { pos: 0, byte: b'/' }
    ));
}

#[test]
fn four_params_kept_in_order_and_set_equal() {
    let a = ok("a/b;p1=1;p2=2;p3=3;p4=4");
    assert_eq!(
        pairs(&a),
        vec![
            (b"p1".to_vec(), b"1".to_vec()),
            (b"p2".to_vec(), b"2".to_vec()),
            (b"p3".to_vec(), b"3".to_vec()),
            (b"p4".to_vec(), b"4".to_vec()),
        ]
    );
    let mut it = a.params();
    assert_eq!(it.size_hint(), (4, Some(4)));
    it.next();
    assert_eq!(it.size_hint(), (3, Some(3)));

    let b = ok("a/b;p4=4;p3=3;p2=2;p1=1");
    assert!(a.eq_mime(&b));
    let c = ok("a/b;p4=4;p3=3;p2=2;p1=9");
    assert!(!a.eq_mime(&c));
}

#[test]
fn quoted_values_keep_their_quotes() {
    let m = ok("text/plain; a=\"b;c\" ;d=e");
    assert_eq!(
        pairs(&m),
        vec![
            (b"a".to_vec(), b"\"b;c\"".to_vec()),
            (b"d".to_vec(), b"e".to_vec()),
        ]
    );
    let m = ok("text/plain; a=\"x\\\"y\"");
    assert_eq!(pairs(&m), vec![(b"a".to_vec(), b"\"x\\\"y\"".to_vec())]);
}

#[test]
fn eq_str_parses_the_right_hand_side() {
    let m = ok("text/plain; charset=utf-8");
    assert!(m.eq_str(b"text/plain;charset=utf-8"));
    assert!(m.eq_str(b"TEXT/PLAIN; CHARSET=UTF-8"));
    assert!(!m.eq_str(b"text/html"));
    assert!(!m.eq_str(b"not a mime"));
    let n = ok("text/plain");
    assert!(n.eq_str(b"TEXT/plain"));
    assert!(!n.eq_str(b"text/plain; charset=utf-8"));
}

#[test]
fn ordering_is_bytewise_on_the_text() {
    let a = ok("a/a");
    let b = ok("a/b");
    assert_eq!(a.cmp_text(&b), Ordering::Less);
    assert_eq!(b.cmp_text(&a), Ordering::Greater);
    assert_eq!(a.cmp_text(&ok("a/a")), Ordering::Equal);
    // equality and ordering deliberately disagree on reordered parameters
    let x = ok("a/b;x=1;y=2");
    let y = ok("a/b;y=2;x=1");
    assert!(x.eq_mime(&y));
    assert_ne!(x.cmp_text(&y), Ordering::Equal);
}

#[test]
fn trailing_semicolon_quirk() {
    // a lone trailing `;` yields no parameters and stays part of the text
    let m = ok("text/plain;");
    assert!(!m.has_params());
    assert_eq!(m.as_bytes(), b"text/plain;");
    assert_eq!(m.subtype(), b"plain;");
}

#[test]
fn empty_value_at_end_of_input() {
    let m = ok("a/b;c=");
    assert_eq!(pairs(&m), vec![(b"c".to_vec(), b"".to_vec())]);
}

#[test]
fn error_descriptions() {
    assert_eq!(
        ParseError::MissingSlash.description(),
        "a slash (/) was missing between the type and subtype"
    );
    assert_eq!(
        ParseError::MissingEqual.description(),
        "an equals sign (=) was missing between a parameter and its value"
    );
    assert_eq!(
        ParseError::MissingQuote.description(),
        "a quote (\") was missing from a parameter value"
    );
    assert_eq!(
        ParseError::InvalidToken { pos: 0, byte: 0 }.description(),
        "invalid token"
    );
    assert_eq!(ParseError::InvalidRange.description(), "unexpected asterisk");
}

#[test]
fn fast_eq_settles_the_cheap_cases() {
    let plain = ok("text/plain");
    let plain2 = ok("text/html");
    let sh = ok("a/b; charset=utf-8");
    let sh2 = ok("c/d; charset=UTF-8");
    let one = ok("a/b;x=1");
    assert_eq!(plain.params().fast_eq(&plain2.params()), FastEqRes::Equals);
    assert_eq!(sh.params().fast_eq(&sh2.params()), FastEqRes::Equals);
    assert_eq!(plain.params().fast_eq(&one.params()), FastEqRes::NotEquals);
    assert_eq!(one.params().fast_eq(&plain.params()), FastEqRes::NotEquals);
    assert_eq!(sh.params().fast_eq(&one.params()), FastEqRes::Undetermined);
}

#[test]
fn shorthand_materializes_when_more_params_follow() {
    let m = ok("text/plain; charset=utf-8;x=1");
    assert_eq!(
        pairs(&m),
        vec![
            (b"charset".to_vec(), b"utf-8".to_vec()),
            (b"x".to_vec(), b"1".to_vec()),
        ]
    );
    let n = ok("text/plain; charset=utf-8;");
    assert_eq!(pairs(&n), vec![(b"charset".to_vec(), b"utf-8".to_vec())]);
}

#[test]
fn quoted_charset_is_not_the_shorthand() {
    let m = ok("text/plain; charset=\"utf-8\"");
    assert_eq!(pairs(&m), vec![(b"charset".to_vec(), b"\"utf-8\"".to_vec())]);
    // stored values are compared byte-exactly, so the quoted form differs
    let n = ok("text/plain; charset=utf-8");
    assert!(!m.eq_mime(&n));
}
