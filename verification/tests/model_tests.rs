//! The rule model: validation of rules and data source declarations.

use nemo::model::{
    Atom, DataSource, DataSourceDeclaration, Identifier, Literal, Rule, SparqlQuery, Term,
};
use nemo::parser::{ParseError, RuleParser};
use nemo::strategy::{RoundRobinStrategy, RuleSelectionStrategy};
use nemo::term_map::{Key, TermMap};

fn atom(pred: usize, terms: Vec<Term>) -> Atom {
    Atom::new(Identifier(pred), terms)
}

fn var(v: usize) -> Term {
    Term::Variable(Identifier(v))
}

fn evar(v: usize) -> Term {
    Term::ExistentialVariable(Identifier(v))
}

fn cst(c: usize) -> Term {
    Term::Constant(Identifier(c))
}

#[test]
fn validated_rule_passes() {
    let parser = RuleParser::new();
    let head = vec![atom(0, vec![var(1), evar(2)])];
    let body = vec![Literal::Positive(atom(3, vec![var(1)]))];
    let r = Rule::new_validated(head, body, &parser).expect("rule should be accepted");
    assert_eq!(r.head().len(), 1);
    assert_eq!(r.body().len(), 1);
}

#[test]
fn body_existential_is_rejected() {
    let parser = RuleParser::new();
    let head = vec![atom(0, vec![var(1)])];
    let body = vec![Literal::Positive(atom(3, vec![evar(2)]))];
    let r = Rule::new_validated(head, body, &parser);
    assert!(matches!(r, Err(ParseError::BodyExistential(_))));
}

#[test]
fn negated_only_variable_is_rejected() {
    let parser = RuleParser::new();
    let head = vec![atom(0, vec![cst(9)])];
    let body = vec![
        Literal::Positive(atom(3, vec![var(1)])),
        Literal::Negative(atom(4, vec![var(2)])),
    ];
    let r = Rule::new_validated(head, body, &parser);
    assert!(matches!(r, Err(ParseError::UnsafeNegatedVariable(_))));
}

#[test]
fn negated_variable_with_positive_occurrence_passes() {
    let parser = RuleParser::new();
    let head = vec![atom(0, vec![var(1)])];
    let body = vec![
        Literal::Positive(atom(3, vec![var(1), var(2)])),
        Literal::Negative(atom(4, vec![var(2)])),
    ];
    assert!(Rule::new_validated(head, body, &parser).is_ok());
}

#[test]
fn mixed_quantifiers_are_rejected() {
    let parser = RuleParser::new();
    // the same variable is universal in the body and existential in the head
    let head = vec![atom(0, vec![evar(1)])];
    let body = vec![Literal::Positive(atom(3, vec![var(1)]))];
    let r = Rule::new_validated(head, body, &parser);
    assert!(matches!(r, Err(ParseError::BothQuantifiers(_))));
}

#[test]
fn atom_variable_views() {
    let a = atom(0, vec![var(1), cst(5), evar(2), var(1)]);
    assert_eq!(a.universal_variables(), vec![Identifier(1), Identifier(1)]);
    assert_eq!(a.existential_variables(), vec![Identifier(2)]);
    assert_eq!(a.variables().len(), 3);
    assert!(!var(1).is_ground());
    assert!(cst(5).is_ground());
    let lit = Literal::Positive(a.clone());
    assert!(lit.is_positive());
    let neg = lit.neg();
    assert!(neg.is_negative());
    assert_eq!(neg.atom(), &a);
}

#[test]
fn rdf_source_needs_arity_three() {
    let parser = RuleParser::new();
    let src = DataSource::rdf_file("triples.nt").unwrap();
    let ok = DataSourceDeclaration::new_validated(Identifier(0), 3, src.clone(), &parser);
    assert!(ok.is_ok());
    let bad = DataSourceDeclaration::new_validated(Identifier(0), 2, src, &parser);
    assert!(matches!(bad, Err(ParseError::RdfSourceInvalidArity(_, _, 2))));
}

#[test]
fn sparql_source_arity_must_match_projection() {
    let parser = RuleParser::new();
    let q = SparqlQuery::new(
        "https://example.org/sparql".to_owned(),
        "?x,?y".to_owned(),
        "?x ?p ?y".to_owned(),
    );
    let src = DataSource::sparql_query(q.clone()).unwrap();
    let ok = DataSourceDeclaration::new_validated(Identifier(0), 2, src.clone(), &parser);
    assert!(ok.is_ok());
    let bad = DataSourceDeclaration::new_validated(Identifier(0), 3, src, &parser);
    assert!(matches!(
        bad,
        Err(ParseError::SparqlSourceInvalidArity(_, 2, 3))
    ));
}

#[test]
fn sparql_query_formats() {
    let q = SparqlQuery::new(
        "https://example.org/sparql".to_owned(),
        "?x".to_owned(),
        "?x a ?y".to_owned(),
    );
    assert_eq!(q.endpoint(), "https://example.org/sparql");
    assert_eq!(q.projection(), "?x");
    assert_eq!(q.query(), "?x a ?y");
    assert_eq!(q.format_query(), "SELECT ?x WHERE { ?x a ?y }");
}

#[test]
fn printable_identifier_resolves() {
    let mut dict = nemo::dictionary::Dictionary::new();
    let h = dict.add("p".to_owned());
    let known = Identifier(h).format(&dict);
    assert_eq!(known.text(), "p");
    let unknown = Identifier(17).format(&dict);
    assert_eq!(unknown.text(), "<unresolved identifier 17>");
}

#[test]
fn term_map_replaces_on_equal_keys() {
    let mut m = TermMap::new();
    m.insert(Key::string("a".to_owned()), cst(1));
    m.insert(Key::identifier(Identifier(7)), cst(2));
    m.insert(Key::string("a".to_owned()), cst(3));
    let pairs = m.iter();
    assert_eq!(pairs.len(), 2);
    assert_eq!(pairs[0].1, cst(3));
    assert_eq!(pairs[1].1, cst(2));
}

#[test]
fn program_round_trip() {
    let rules = vec![Rule::new(
        vec![atom(0, vec![var(1)])],
        vec![Literal::Positive(atom(2, vec![var(1)]))],
    )];
    let program = nemo::model::Program::new(
        Some(4),
        vec![("ex".to_owned(), 5)],
        vec![],
        rules,
        vec![],
    );
    assert_eq!(program.base(), Some(4));
    assert_eq!(program.rules().len(), 1);
    assert_eq!(program.facts().len(), 0);
    assert_eq!(program.resolve_prefix("ex"), Some(5));
    assert_eq!(program.resolve_prefix("missing"), None);
}

#[test]
fn round_robin_strategy_cycles_until_stale() {
    let rules = vec![
        Rule::new(vec![atom(0, vec![var(1)])], vec![Literal::Positive(atom(1, vec![var(1)]))]),
        Rule::new(vec![atom(2, vec![var(1)])], vec![Literal::Positive(atom(0, vec![var(1)]))]),
    ];
    let mut strategy = <RoundRobinStrategy as RuleSelectionStrategy>::new(rules);
    assert_eq!(strategy.next_rule(None), Some(0));
    assert_eq!(strategy.next_rule(Some(true)), Some(1));
    assert_eq!(strategy.next_rule(Some(false)), Some(0));
    // a second fruitless application completes a stale round
    assert_eq!(strategy.next_rule(Some(false)), None);
}

#[test]
fn term_map_iterates_in_ascending_key_order() {
    // insertion order does not show through: identifier keys iterate by
    // value, and string keys come before identifier keys
    let mut m = TermMap::new();
    m.insert(Key::identifier(Identifier(2)), cst(20));
    m.insert(Key::identifier(Identifier(1)), cst(10));
    m.insert(Key::string("b".to_owned()), cst(30));
    m.insert(Key::string("a".to_owned()), cst(40));
    let pairs = m.iter();
    assert_eq!(pairs.len(), 4);
    assert!(matches!(&pairs[0].0, Key::String(s) if s == "a"));
    assert!(matches!(&pairs[1].0, Key::String(s) if s == "b"));
    assert!(matches!(&pairs[2].0, Key::Identifier(Identifier(1))));
    assert!(matches!(&pairs[3].0, Key::Identifier(Identifier(2))));
    assert_eq!(pairs[2].1, cst(10));
    assert_eq!(pairs[3].1, cst(20));
}

#[test]
fn term_map_from_pairs_keeps_last_binding() {
    let m = TermMap::from_pairs(vec![
        (Key::string("k".to_owned()), cst(1)),
        (Key::string("k".to_owned()), cst(2)),
    ]);
    assert_eq!(m.iter().len(), 1);
    assert_eq!(m.iter()[0].1, cst(2));
}
