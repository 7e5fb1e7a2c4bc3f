use osc_address::pattern::AddressPattern;
use osc_address::pattern::BracketExpression;
use osc_address::pattern::parse_address_pattern;
use osc_address::segment::ParseError;

#[test]
fn test_parse_address_pattern() {
    let pat = parse_address_pattern("/oscillator/[0-9]/*/[!1234]/{frequency,phase}/x?").unwrap();
    assert_eq!(
        pat,
        vec![
            AddressPattern::Literal("oscillator".into()),
            AddressPattern::BracketExpression(vec![BracketExpression::Range {
                from: '0',
                to: '9'
            }]),
            AddressPattern::Wildcard,
            AddressPattern::InvertedBracketExpression(vec![BracketExpression::Charset(vec![
                '1', '2', '3', '4'
            ])]),
            AddressPattern::Alt("frequency".into(), "phase".into()),
            AddressPattern::Literal("x".into()),
            AddressPattern::QuestionMark
        ]
    );
}

#[test]
fn test_question_mark_only_alone() {
    assert_eq!(
        parse_address_pattern("/x?"),
        Ok(vec![
            AddressPattern::Literal("x".into()),
            AddressPattern::QuestionMark
        ])
    );
    assert_eq!(
        parse_address_pattern("/?"),
        Ok(vec![AddressPattern::QuestionMark])
    );
}

#[test]
fn test_reversed_range_is_accepted() {
    assert_eq!(
        parse_address_pattern("/[9-0]"),
        Ok(vec![AddressPattern::BracketExpression(vec![
            BracketExpression::Range { from: '9', to: '0' }
        ])])
    );
}

#[test]
fn test_mixed_range_and_charset() {
    assert_eq!(
        parse_address_pattern("/[a-c12]"),
        Ok(vec![AddressPattern::BracketExpression(vec![
            BracketExpression::Range { from: 'a', to: 'c' },
            BracketExpression::Charset(vec!['1', '2'])
        ])])
    );
    assert_eq!(
        parse_address_pattern("/[0-9a-z]"),
        Ok(vec![AddressPattern::BracketExpression(vec![
            BracketExpression::Range { from: '0', to: '9' },
            BracketExpression::Range { from: 'a', to: 'z' }
        ])])
    );
}

#[test]
fn test_charset_never_resegmented() {
    assert_eq!(
        parse_address_pattern("/[x0-9]"),
        Ok(vec![AddressPattern::BracketExpression(vec![
            BracketExpression::Charset(vec!['x', '0', '-', '9'])
        ])])
    );
}

#[test]
fn test_empty_inverted_body_reads_as_plain_bracket() {
    assert_eq!(
        parse_address_pattern("/[!]"),
        Ok(vec![AddressPattern::BracketExpression(vec![
            BracketExpression::Charset(vec!['!'])
        ])])
    );
}

#[test]
fn test_alternation_extra_comma_goes_to_second_branch() {
    assert_eq!(
        parse_address_pattern("/{a,b,c}"),
        Ok(vec![AddressPattern::Alt("a".into(), "b,c".into())])
    );
}

#[test]
fn test_malformed_patterns() {
    assert_eq!(parse_address_pattern(""), Err(ParseError::MalformedPattern));
    assert_eq!(
        parse_address_pattern("/"),
        Err(ParseError::MalformedPattern)
    );
    assert_eq!(
        parse_address_pattern("//"),
        Err(ParseError::MalformedPattern)
    );
    assert_eq!(
        parse_address_pattern("//a/b"),
        Err(ParseError::MalformedPattern)
    );
    assert_eq!(
        parse_address_pattern("/[]"),
        Err(ParseError::MalformedPattern)
    );
    assert_eq!(
        parse_address_pattern("/[abc"),
        Err(ParseError::MalformedPattern)
    );
    assert_eq!(
        parse_address_pattern("/{ab}"),
        Err(ParseError::MalformedPattern)
    );
    assert_eq!(
        parse_address_pattern("/{a,b"),
        Err(ParseError::MalformedPattern)
    );
    assert_eq!(
        parse_address_pattern("/a b"),
        Err(ParseError::MalformedPattern)
    );
}

#[test]
fn test_pattern_tokens_mix_inside_segment() {
    assert_eq!(
        parse_address_pattern("/ab*cd"),
        Ok(vec![
            AddressPattern::Literal("ab".into()),
            AddressPattern::Wildcard,
            AddressPattern::Literal("cd".into())
        ])
    );
    assert_eq!(
        parse_address_pattern("/[0-9]x"),
        Ok(vec![
            AddressPattern::BracketExpression(vec![BracketExpression::Range {
                from: '0',
                to: '9'
            }]),
            AddressPattern::Literal("x".into())
        ])
    );
}

#[test]
fn test_metacharacters_allowed_in_pattern_literals() {
    assert_eq!(
        parse_address_pattern("/a#b,c"),
        Ok(vec![AddressPattern::Literal("a#b,c".into())])
    );
}
