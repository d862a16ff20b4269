//! The rule parser: directives, facts, and IRI handling.

use nemo::model::{Atom, Fact, Identifier, RdfLiteral, Term};
use nemo::parser::RuleParser;

fn char_len(s: &str) -> usize {
    s.chars().count()
}

#[test]
fn base_directive() {
    let base = "http://example.org/foo";
    let input = format!("@base <{base}> .");
    let mut parser = RuleParser::new();
    assert!(parser.base().is_none());
    let (consumed, parsed) = parser.parse_base(&input).expect("should not be a parse error");
    assert_eq!(consumed, char_len(&input));
    assert_eq!(parsed, base);
    assert_eq!(parser.base().as_deref(), Some(base));
}

#[test]
fn prefix_directive() {
    let prefix = "foo";
    let iri = "http://example.org/foo";
    let input = format!("@prefix {prefix}: <{iri}> .");
    let mut parser = RuleParser::new();
    assert!(parser.resolve_prefix(prefix).is_none());
    let (consumed, parsed) = parser.parse_prefix(&input).expect("should not be a parse error");
    assert_eq!(consumed, char_len(&input));
    assert_eq!(parsed, prefix);
    assert_eq!(parser.resolve_prefix(prefix).as_deref(), Some(iri));
}

#[test]
fn fact() {
    let mut parser = RuleParser::new();
    let predicate = "p";
    let value = "foo";
    let datatype = "bar";
    let p = Identifier(parser.intern_term(predicate.to_owned()));
    let v = parser.intern_term(value.to_owned());
    let t = parser.intern_term(datatype.to_owned());
    let fact = format!(r#"{predicate}("{value}"^^<{datatype}>) ."#);

    let (consumed, parsed) = parser.parse_fact(&fact).expect("should not be a parse error");
    assert_eq!(consumed, char_len(&fact));
    assert_eq!(
        parsed,
        Fact(Atom {
            predicate: p,
            terms: vec![Term::RdfLiteral(RdfLiteral::DatatypeValue {
                value: v,
                datatype: t
            })]
        })
    );
}

#[test]
fn fact_with_several_terms() {
    let mut parser = RuleParser::new();
    let input = "edge(<http://a>,7) .";
    let (consumed, parsed) = parser.parse_fact(input).expect("fact should parse");
    assert_eq!(consumed, char_len(input));
    assert_eq!(parsed.0.terms.len(), 2);
    assert!(matches!(parsed.0.terms[0], Term::Constant(_)));
    assert!(matches!(
        parsed.0.terms[1],
        Term::NumericLiteral(nemo::model::NumericLiteral::Integer(7))
    ));
}

#[test]
fn fact_rejects_missing_dot() {
    let mut parser = RuleParser::new();
    assert!(parser.parse_fact("p(1)").is_none());
}

#[test]
fn interning_is_stable() {
    let mut parser = RuleParser::new();
    let a = parser.intern_term("alpha".to_owned());
    let b = parser.intern_term("beta".to_owned());
    let a2 = parser.intern_term("alpha".to_owned());
    assert_eq!(a, a2);
    assert_ne!(a, b);
    assert_eq!(parser.resolve_term(a).as_deref(), Some("alpha"));
    assert_eq!(parser.resolve_term(b).as_deref(), Some("beta"));
    assert_eq!(parser.resolve_term(99), None);
}

#[test]
fn absolutize_iri_uses_base() {
    let mut parser = RuleParser::new();
    let input = "@base <http://example.org/> .";
    parser.parse_base(input).expect("base should parse");
    assert_eq!(parser.absolutize_iri("rel"), "http://example.org/rel");
    assert_eq!(parser.absolutize_iri("http://other.org/x"), "http://other.org/x");
}

#[test]
fn resolve_prefixed_name_expands() {
    let mut parser = RuleParser::new();
    parser
        .parse_prefix("@prefix ex: <http://example.org/> .")
        .expect("prefix should parse");
    assert_eq!(
        parser.resolve_prefixed_name("ex:thing").as_deref(),
        Some("http://example.org/thing")
    );
    assert_eq!(parser.resolve_prefixed_name("missing:thing"), None);
}

#[test]
fn unsupported_parsers_accept_nothing() {
    let mut parser = RuleParser::new();
    assert!(parser.parse_rule("a(?x) :- b(?x) .").is_none());
    assert!(parser.parse_program("a(1) .").is_none());
    assert!(parser.parse_source("@source p[1]: load-csv(\"f.csv\") .").is_none());
    assert!(parser.unresolve_absolute_iri("http://example.org/x").is_none());
    let st = parser.parse_statement("p(1) .");
    assert!(matches!(st, Some((_, nemo::model::Statement::Fact(_)))));
}
