//! Tests of the textual notation: accepted lines and each parse error.

use autoperm::{parse, ParseError, StackEffectDiagram};

#[test]
fn parse_simple() {
    assert_eq!(
        parse("a b -- b a"),
        Ok(StackEffectDiagram { inputs: 2, mapping: vec![1, 0] })
    );
    assert_eq!(
        parse("a -- a a"),
        Ok(StackEffectDiagram { inputs: 1, mapping: vec![0, 0] })
    );
    assert_eq!(parse("a b --"), Ok(StackEffectDiagram { inputs: 2, mapping: vec![] }));
    assert_eq!(parse("--"), Ok(StackEffectDiagram { inputs: 0, mapping: vec![] }));
}

#[test]
fn parse_other_whitespace() {
    // tabs and newlines separate symbols just as spaces do
    assert_eq!(
        parse("a\tb --\nb\ta"),
        Ok(StackEffectDiagram { inputs: 2, mapping: vec![1, 0] })
    );
    // symbols are free-form words, split only at whitespace and `--`
    assert_eq!(
        parse("foo bar19 -- bar19 foo foo"),
        Ok(StackEffectDiagram { inputs: 2, mapping: vec![1, 0, 0] })
    );
}

#[test]
fn parse_missing_double_dash() {
    assert_eq!(parse("a b c"), Err(ParseError::MissingDoubleDash));
    assert_eq!(parse(""), Err(ParseError::MissingDoubleDash));
    assert_eq!(parse("a - b"), Err(ParseError::MissingDoubleDash));
}

#[test]
fn parse_additional_double_dash() {
    assert_eq!(parse("a -- b -- c"), Err(ParseError::AdditionalDoubleDash));
    assert_eq!(parse("----"), Err(ParseError::AdditionalDoubleDash));
}

#[test]
fn parse_symbol_defined_twice() {
    assert_eq!(
        parse("a b a -- a"),
        Err(ParseError::SymbolDefinedTwice { symbol: "a".to_string(), first: 0, second: 2 })
    );
}

#[test]
fn parse_symbol_not_defined() {
    assert_eq!(
        parse("a b -- a c"),
        Err(ParseError::SymbolNotDefined { symbol: "c".to_string(), id: 1 })
    );
}

#[test]
fn error_messages() {
    assert_eq!(parse("a b").unwrap_err().message(), "Missing --");
    assert_eq!(parse("a -- b -- c").unwrap_err().message(), "Additional --");
    assert_eq!(
        parse("a a -- a").unwrap_err().message(),
        "Symbol a defined twice at 0 and 1"
    );
    assert_eq!(
        parse("a -- b").unwrap_err().message(),
        "Symbol b not defined at 0"
    );
}
