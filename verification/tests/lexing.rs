//! The lexer.

use agent_ir::lexer::{tokenize, Tok};
use agent_ir::number::Number;

fn kinds(source: &str) -> Vec<Tok> {
    tokenize(source)
        .unwrap()
        .into_iter()
        .map(|t| t.tok)
        .filter(|t| *t != Tok::Eof)
        .collect()
}

#[test]
fn lexes_the_sigils() {
    assert_eq!(
        kinds("%v @sym ^bb #pure !core.int"),
        vec![
            Tok::Value("v".into()),
            Tok::Symbol("sym".into()),
            Tok::Label("bb".into()),
            Tok::Effect("pure".into()),
            Tok::TypeName("core.int".into()),
        ]
    );
}

#[test]
fn distinguishes_ints_from_floats() {
    assert_eq!(kinds("1 1.5 -2 -2.5 1e3 1.0e-2"), vec![
        Tok::Int(1),
        Tok::Float(Number::new(false, 15, -1)),
        Tok::Int(-2),
        Tok::Float(Number::new(true, 25, -1)),
        Tok::Float(Number::new(false, 1000, 0)),
        Tok::Float(Number::new(false, 1, -2)),
    ]);
}

#[test]
fn a_trailing_dot_does_not_join_a_number_to_a_name() {
    assert_eq!(
        kinds("1 . agent.func"),
        vec![
            Tok::Int(1),
            Tok::Punct('.'),
            Tok::Ident("agent".into()),
            Tok::Punct('.'),
            Tok::Ident("func".into()),
        ]
    );
}

#[test]
fn unescapes_strings() {
    assert_eq!(kinds(r#""a\nb\"c""#), vec![Tok::Str("a\nb\"c".into())]);
}

#[test]
fn skips_line_comments() {
    assert_eq!(kinds("// gone\n42 // also gone"), vec![Tok::Int(42)]);
}

#[test]
fn reports_where_it_failed() {
    let err = tokenize("ok\n  $").unwrap_err();
    assert_eq!(err.span.line, 2);
    assert_eq!(err.span.column, 3);
}

#[test]
fn an_unterminated_string_is_an_error() {
    assert!(tokenize("\"nope").is_err());
}

#[test]
fn an_unknown_escape_is_an_error() {
    assert!(tokenize(r#""a\q""#).is_err());
}

#[test]
fn the_largest_integers_fit() {
    assert_eq!(
        kinds("9223372036854775807 -9223372036854775808"),
        vec![Tok::Int(i64::MAX), Tok::Int(i64::MIN)]
    );
    assert!(tokenize("9223372036854775808").is_err());
}

#[test]
fn every_stream_ends_once() {
    let tokens = tokenize("a b").unwrap();
    assert_eq!(tokens.len(), 3);
    assert_eq!(tokens[2].tok, Tok::Eof);
    assert_eq!(tokens.iter().filter(|t| t.tok == Tok::Eof).count(), 1);
}
