use osc_address::address::Address;
use osc_address::address::parse_address;
use osc_address::segment::ParseError;

#[test]
fn test_parse_address() {
    assert_eq!(
        parse_address("/oscillator/4/voice/1/frequency"),
        Ok(Address {
            containers: vec![
                "oscillator".to_string(),
                "4".to_string(),
                "voice".to_string(),
                "1".to_string()
            ],
            method: "frequency".to_string()
        })
    );
    assert_eq!(
        parse_address("/frequency"),
        Ok(Address {
            containers: vec![],
            method: "frequency".to_string()
        })
    );
}

#[test]
fn test_invalid_addresses() {
    parse_address("").expect_err("empty address");
    parse_address("/").expect_err("bare root address");
    parse_address("//").expect_err("only slashes");
    parse_address("//container/method").expect_err("empty part");
    parse_address("/oscillators/[0-9]/frequency").expect_err("range pattern");
    parse_address("/oscillators/*/frequency").expect_err("wildcard pattern");
    parse_address("/oscillators/1?/frequency").expect_err("question mark pattern");
    parse_address("/oscillators/[abc]/{frequency,phase}").expect_err("choice pattern");
    parse_address("/oscillators/3/{frequency,phase}").expect_err("alternative pattern");
}

#[test]
fn test_all_segments_kept_in_order() {
    let a = parse_address("/a/b/c/d/e").unwrap();
    assert_eq!(
        a.containers,
        vec![
            "a".to_string(),
            "b".to_string(),
            "c".to_string(),
            "d".to_string()
        ]
    );
    assert_eq!(a.method, "e".to_string());
}

#[test]
fn test_each_bare_metacharacter_fails() {
    assert_eq!(parse_address("/a*b"), Err(ParseError::MalformedAddress));
    assert_eq!(parse_address("/a?b"), Err(ParseError::MalformedAddress));
    assert_eq!(parse_address("/a[b"), Err(ParseError::MalformedAddress));
    assert_eq!(parse_address("/a]b"), Err(ParseError::MalformedAddress));
    assert_eq!(parse_address("/a,b"), Err(ParseError::MalformedAddress));
    assert_eq!(parse_address("/a#b"), Err(ParseError::MalformedAddress));
}

#[test]
fn test_whitespace_fails() {
    assert_eq!(parse_address("/a b"), Err(ParseError::MalformedAddress));
    assert_eq!(parse_address("/a\tb"), Err(ParseError::MalformedAddress));
    assert_eq!(parse_address("/a\rb"), Err(ParseError::MalformedAddress));
    assert_eq!(parse_address("/a\nb"), Err(ParseError::MalformedAddress));
    assert_eq!(parse_address("/ab "), Err(ParseError::MalformedAddress));
}

#[test]
fn test_trailing_slash_fails() {
    assert_eq!(parse_address("/ab/"), Err(ParseError::MalformedAddress));
    assert_eq!(parse_address("/ab/cd/"), Err(ParseError::MalformedAddress));
}

#[test]
fn test_canonical_round_trip() {
    let a = parse_address("/oscillator/4/voice/1/frequency").unwrap();
    let s = a.to_canonical();
    assert_eq!(s, "/oscillator/4/voice/1/frequency".to_string());
    let b = parse_address(&s).unwrap();
    assert_eq!(a, b);

    let single = parse_address("/frequency").unwrap();
    assert_eq!(single.to_canonical(), "/frequency".to_string());
    assert_eq!(parse_address(&single.to_canonical()), Ok(single));
}

#[test]
fn test_braces_are_plain_address_text() {
    let a = parse_address("/a{b}c").unwrap();
    assert_eq!(a.containers, Vec::<String>::new());
    assert_eq!(a.method, "a{b}c".to_string());
}
