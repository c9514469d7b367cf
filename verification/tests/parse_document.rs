use hocon::grammar::{Failure, ParseError};
use hocon::parser::parse;

fn parses(text: &str) -> bool {
    parse(text).is_ok()
}

#[test]
fn an_unclosed_required_substitution_is_a_parse_error() {
    match parse("a = ${foo") {
        Err(ParseError::Fatal(Failure::UnclosedSubstitution)) => {}
        other => panic!("unexpected {:?}", other.map(|(e, _)| e)),
    }
}

#[test]
fn a_closed_substitution_parses() {
    assert!(parses("a = 1\nb = ${a}\n"));
}
