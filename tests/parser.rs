use joie::parser::{lex_query, parse_expression, parse_query_text, Expression, LexicalError, QueryToken};

fn text(e: &Expression) -> String {
    match e {
        Expression::Literal(v) => v.iter().collect(),
        Expression::And(l, r) => format!("({} AND {})", text(l), text(r)),
        Expression::Or(l, r) => format!("({} OR {})", text(l), text(r)),
    }
}

fn parse(s: &str) -> Option<String> {
    parse_query_text(s).map(|e| text(&e))
}

#[test]
fn lexes_all_token_kinds() {
    let toks = lex_query("a && (b || \"c d\") and OR").unwrap();
    assert_eq!(toks.len(), 9);
    assert!(matches!(toks[0], QueryToken::Ident(_)));
    assert!(matches!(toks[1], QueryToken::And));
    assert!(matches!(toks[2], QueryToken::ParenOpen));
    assert!(matches!(toks[4], QueryToken::Or));
    match &toks[5] {
        QueryToken::QuotedString(s) => assert_eq!(s.iter().collect::<String>(), "c d"),
        _ => panic!("expected a quoted string"),
    }
    assert!(matches!(toks[6], QueryToken::ParenClose));
    assert!(matches!(toks[7], QueryToken::And));
    assert!(matches!(toks[8], QueryToken::Or));
}

#[test]
fn lex_errors() {
    assert!(matches!(lex_query("\"unterminated"), Err(LexicalError::InvalidToken)));
    assert!(matches!(lex_query("\"bad \\x escape\""), Err(LexicalError::InvalidToken)));
    assert!(lex_query("\"ok \\\" escape\"").is_ok());
}

#[test]
fn words_next_to_operators() {
    let toks = lex_query("ANDY orchid").unwrap();
    assert!(matches!(toks[0], QueryToken::Ident(_)));
    assert!(matches!(toks[1], QueryToken::Ident(_)));
}

#[test]
fn and_is_the_outer_level() {
    assert_eq!(parse("a AND b OR c").unwrap(), "(a AND (b OR c))");
    assert_eq!(parse("a OR b AND c").unwrap(), "((a OR b) AND c)");
    assert_eq!(parse("a OR b OR c").unwrap(), "((a OR b) OR c)");
}

#[test]
fn identifiers_join_into_one_literal() {
    assert_eq!(parse("quick brown fox").unwrap(), "quick brown fox");
    assert_eq!(parse("\"quick brown\" AND fox").unwrap(), "(quick brown AND fox)");
}

#[test]
fn parentheses_group() {
    assert_eq!(parse("(a AND b) OR c").unwrap(), "((a AND b) OR c)");
}

#[test]
fn parse_failures() {
    assert_eq!(parse(""), None);
    assert_eq!(parse("a AND"), None);
    assert_eq!(parse("(a"), None);
    assert_eq!(parse("a)"), None);
    assert_eq!(parse("OR a"), None);
}

#[test]
fn parse_from_tokens() {
    let toks = lex_query("x OR y").unwrap();
    let e = parse_expression(&toks).unwrap();
    assert_eq!(text(&e), "(x OR y)");
}
