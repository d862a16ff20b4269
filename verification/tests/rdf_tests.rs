//! RDF ingestion: parsing through rio, literal validation, and
//! rollback-free loading.

use nemo::dictionary::Dictionary;
use nemo::rdf::{RDFTriplesReader, RdfFile};

fn entry(dict: &Dictionary, handle: u64) -> String {
    dict.entry(handle as usize).expect("handle should resolve")
}

#[test]
fn example_1() {
    let data = r#"<http://one.example/subject1> <http://one.example/predicate1> <http://one.example/object1> . # comments here
          # or on a line by themselves
          _:subject1 <http://an.example/predicate1> "object1" .
          _:subject2 <http://an.example/predicate2> "object2" .
          "#.as_bytes();

    let expected: [[&str; 3]; 3] = [
        [
            "http://one.example/subject1",
            "http://one.example/predicate1",
            "http://one.example/object1",
        ],
        ["_:subject1", "http://an.example/predicate1", "\"object1\""],
        ["_:subject2", "http://an.example/predicate2", "\"object2\""],
    ];

    // as N-Triples
    let reader = RDFTriplesReader::new(&RdfFile::new("", None));
    let mut dict = Dictionary::new();
    let (s, p, o) = reader.read_triples(data, &mut dict).expect("should load");
    assert_eq!(s.len(), 3);
    assert_eq!(p.len(), 3);
    assert_eq!(o.len(), 3);
    for (idx, row) in expected.iter().enumerate() {
        assert_eq!(entry(&dict, s.get(idx)), row[0]);
        assert_eq!(entry(&dict, p.get(idx)), row[1]);
        assert_eq!(entry(&dict, o.get(idx)), row[2]);
    }

    // as Turtle
    let reader = RDFTriplesReader::new(&RdfFile::new("input.ttl", None));
    let mut dict = Dictionary::new();
    let (s, p, o) = reader.read_triples(data, &mut dict).expect("should load");
    assert_eq!(s.len(), 3);
    assert_eq!(p.len(), 3);
    assert_eq!(o.len(), 3);
    for (idx, row) in expected.iter().enumerate() {
        assert_eq!(entry(&dict, s.get(idx)), row[0]);
        assert_eq!(entry(&dict, p.get(idx)), row[1]);
        assert_eq!(entry(&dict, o.get(idx)), row[2]);
    }
}

#[test]
fn rollback() {
    let data = r#"<http://example.org/> <http://example.org/> <http://example.org/> .
                  malformed <http://example.org/> <http://example.org/>
                  <http://example.org/> malformed <http://example.org/> .
                  <http://example.org/> <http://example.org/> malformed .
                  <http://example.org/> <http://example.org/> "123"^^<http://www.w3.org/2001/XMLSchema#integer> .
                  <http://example.org/> <http://example.org/> "123.45"^^<http://www.w3.org/2001/XMLSchema#integer> .
                  <http://example.org/> <http://example.org/> "123.45"^^<http://www.w3.org/2001/XMLSchema#decimal> .
                  <http://example.org/> <http://example.org/> "123.45a"^^<http://www.w3.org/2001/XMLSchema#decimal> .
                  <https://example.org/> <https://example.org/> <https://example.org/> .
              "#
    .as_bytes();

    let reader = RDFTriplesReader::new(&RdfFile::new("", None));
    let mut dict = Dictionary::new();
    let (s, p, o) = reader.read_triples(data, &mut dict).expect("should load");
    assert_eq!(s.len(), 4);
    assert_eq!(p.len(), 4);
    assert_eq!(o.len(), 4);
}

#[test]
fn turtle_stops_at_first_error() {
    // a lone dot is a Turtle syntax error on which the parser cannot
    // advance; reading must still terminate, with nothing loaded
    let reader = RDFTriplesReader::new(&RdfFile::new("x.ttl", None));
    let mut dict = Dictionary::new();
    let (s, p, o) = reader.read_triples(b".", &mut dict).expect("should load");
    assert_eq!(s.len(), 0);
    assert_eq!(p.len(), 0);
    assert_eq!(o.len(), 0);
}

#[test]
fn turtle_keeps_triples_before_first_error() {
    let data = b"<http://e.org/s> <http://e.org/p> <http://e.org/o> .\n.";
    let reader = RDFTriplesReader::new(&RdfFile::new("x.ttl", None));
    let mut dict = Dictionary::new();
    let (s, p, o) = reader.read_triples(data, &mut dict).expect("should load");
    assert_eq!(s.len(), 1);
    assert_eq!(p.len(), 1);
    assert_eq!(o.len(), 1);
    assert_eq!(entry(&dict, s.get(0)), "http://e.org/s");
}

#[test]
fn invalid_base_is_rejected() {
    let reader = RDFTriplesReader::new(&RdfFile::new("x.ttl", Some("no spaces allowed here")));
    let mut dict = Dictionary::new();
    let r = reader.read_triples(b"", &mut dict);
    assert!(matches!(r, Err(nemo::rdf::RdfError::InvalidBaseIri)));
}

#[test]
fn integer_lexical_forms() {
    assert!(nemo::rdf::is_integer_lexical("123"));
    assert!(nemo::rdf::is_integer_lexical("-7"));
    assert!(nemo::rdf::is_integer_lexical("+0"));
    assert!(!nemo::rdf::is_integer_lexical(""));
    assert!(!nemo::rdf::is_integer_lexical("123.45"));
    assert!(!nemo::rdf::is_integer_lexical("12a"));
    assert!(!nemo::rdf::is_integer_lexical("+"));
}

#[test]
fn decimal_lexical_forms() {
    assert!(nemo::rdf::is_decimal_lexical("123.45"));
    assert!(nemo::rdf::is_decimal_lexical("123"));
    assert!(nemo::rdf::is_decimal_lexical("-0.5"));
    assert!(nemo::rdf::is_decimal_lexical(".5"));
    assert!(nemo::rdf::is_decimal_lexical("5."));
    assert!(!nemo::rdf::is_decimal_lexical("123.45a"));
    assert!(!nemo::rdf::is_decimal_lexical("."));
    assert!(!nemo::rdf::is_decimal_lexical(""));
    assert!(!nemo::rdf::is_decimal_lexical("1.2.3"));
}
