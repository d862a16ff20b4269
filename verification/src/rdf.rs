//! Reading of RDF 1.1 triples (N-Triples, Turtle, RDF/XML): the
//! parsers of the rio crates run behind trusted wrappers that hand back
//! plain values; validation of literals against their datatypes and the
//! rollback-free loading of well-formed triples into columns are
//! verified here.

use vstd::prelude::*;
use crate::column::{AdaptiveColumnBuilder, ColumnT};
use crate::dictionary::Dictionary;

verus! {

// ------------------------------------------------------------------
// The plain representation of parsed RDF terms
// ------------------------------------------------------------------

/// What the engine reads of one parsed RDF term.
#[derive(Debug, Clone, PartialEq, Eq)]
pub enum TermRepr {
    /// A named node, holding its IRI.
    Iri(String),
    /// A blank node, holding its label without the `_:` prefix.
    Blank(String),
    /// A simple string literal.
    Simple(String),
    /// A language-tagged string literal.
    Language {
        /// The literal value.
        value: String,
        /// The language tag.
        tag: String,
    },
    /// A literal with a datatype IRI.
    Typed {
        /// The literal value.
        value: String,
        /// The datatype IRI.
        datatype: String,
    },
    /// An RDF-star triple term; not supported by the data model.
    Star,
}

/// The mathematical shape of a parsed RDF term.
pub enum TermView {
    /// A named node.
    Iri(Seq<char>),
    /// A blank node label.
    Blank(Seq<char>),
    /// A simple string literal.
    Simple(Seq<char>),
    /// A language-tagged string literal.
    Language {
        /// The literal value.
        value: Seq<char>,
        /// The language tag.
        tag: Seq<char>,
    },
    /// A literal with a datatype IRI.
    Typed {
        /// The literal value.
        value: Seq<char>,
        /// The datatype IRI.
        datatype: Seq<char>,
    },
    /// An RDF-star triple term.
    Star,
}

impl View for TermRepr {
    type V = TermView;

    open spec fn view(&self) -> TermView {
        match self {
            TermRepr::Iri(s) => TermView::Iri(s@),
            TermRepr::Blank(s) => TermView::Blank(s@),
            TermRepr::Simple(s) => TermView::Simple(s@),
            TermRepr::Language { value, tag } => TermView::Language {
                value: value@,
                tag: tag@,
            },
            TermRepr::Typed { value, datatype } => TermView::Typed {
                value: value@,
                datatype: datatype@,
            },
            TermRepr::Star => TermView::Star,
        }
    }
}

/// One parsed triple, as plain values.
#[derive(Debug, Clone, PartialEq, Eq)]
pub struct RawTriple {
    /// The subject: an IRI, a blank node, or an unsupported star term.
    pub subject: TermRepr,
    /// The predicate IRI.
    pub predicate: String,
    /// The object term.
    pub object: TermRepr,
}

/// The mathematical shape of a parsed triple.
pub struct TripleView {
    /// The subject term.
    pub subject: TermView,
    /// The predicate IRI.
    pub predicate: Seq<char>,
    /// The object term.
    pub object: TermView,
}

impl View for RawTriple {
    type V = TripleView;

    open spec fn view(&self) -> TripleView {
        TripleView { subject: self.subject@, predicate: self.predicate@, object: self.object@ }
    }
}

/// The statement-by-statement view of a parse outcome: a well-formed
/// triple or a syntax error per statement.
pub open spec fn statements_view(v: Seq<Option<RawTriple>>) -> Seq<Option<TripleView>> {
    Seq::new(v.len(), |i: int| match v[i] {
        Some(t) => Some(t@),
        None => None,
    })
}

// ------------------------------------------------------------------
// Names for what the rio parsers return
// ------------------------------------------------------------------

/// The statements the N-Triples parser finds in the input, in order:
/// one entry per statement, well-formed triples as values and malformed
/// statements as `None`.
pub uninterp spec fn ntriples_statements(input: Seq<u8>) -> Seq<Option<TripleView>>;

/// The statements the Turtle parser finds, given the base IRI: the
/// well-formed triples up to the first syntax error, then one `None`
/// for that error if there was one.  Turtle errors are not
/// recoverable, so parsing stops at the first.
pub uninterp spec fn turtle_statements(
    input: Seq<u8>,
    base: Option<Seq<char>>,
) -> Seq<Option<TripleView>>;

/// The statements the RDF/XML parser finds, given the base IRI: the
/// well-formed triples up to the first syntax error, then one `None`
/// for that error if there was one.  RDF/XML errors are not
/// recoverable, so parsing stops at the first.
pub uninterp spec fn rdf_xml_statements(
    input: Seq<u8>,
    base: Option<Seq<char>>,
) -> Seq<Option<TripleView>>;

/// Whether `oxiri` accepts the string as an absolute IRI usable as a base.
pub uninterp spec fn is_valid_base_iri(s: Seq<char>) -> bool;

// ------------------------------------------------------------------
// The trusted wrappers over rio
// ------------------------------------------------------------------

#[verifier::external_type_specification]
#[verifier::external_body]
/// The rio triple type, opaque to the verifier.
pub struct ExRioTriple<'a>(rio_api::model::Triple<'a>);

/// Relies on rio_api's model: the subject of a parsed triple is a named
/// node, a blank node, or an embedded triple; the conversion moves the
/// text of the first two into plain strings.
#[verifier::external_body]
fn raw_subject(t: rio_api::model::Triple<'_>) -> TermRepr {
    match t.subject {
        rio_api::model::Subject::NamedNode(n) => TermRepr::Iri(n.iri.to_string()),
        rio_api::model::Subject::BlankNode(b) => TermRepr::Blank(b.id.to_string()),
        rio_api::model::Subject::Triple(_) => TermRepr::Star,
    }
}

/// Relies on rio_api's model: an object is a named node, a blank node,
/// one of three literal forms, or an embedded triple; the conversion
/// moves each part into plain strings.
#[verifier::external_body]
fn raw_object(t: rio_api::model::Triple<'_>) -> TermRepr {
    match t.object {
        rio_api::model::Term::NamedNode(n) => TermRepr::Iri(n.iri.to_string()),
        rio_api::model::Term::BlankNode(b) => TermRepr::Blank(b.id.to_string()),
        rio_api::model::Term::Literal(rio_api::model::Literal::Simple { value }) =>
            TermRepr::Simple(value.to_string()),
        rio_api::model::Term::Literal(
            rio_api::model::Literal::LanguageTaggedString { value, language },
        ) => TermRepr::Language { value: value.to_string(), tag: language.to_string() },
        rio_api::model::Term::Literal(rio_api::model::Literal::Typed { value, datatype }) =>
            TermRepr::Typed { value: value.to_string(), datatype: datatype.iri.to_string() },
        rio_api::model::Term::Triple(_) => TermRepr::Star,
    }
}

/// Relies on oxiri::Iri::parse: whether the string is usable as a
/// base IRI; the outcome depends on the characters alone.
#[verifier::external_body]
fn check_base_iri(b: &str) -> (r: bool)
    ensures
        r == is_valid_base_iri(b@),
{
    oxiri::Iri::parse(b.to_string()).is_ok()
}

/// Relies on rio_turtle::NTriplesParser: `parse_step` reads the next
/// statement, calling back on a well-formed triple and failing on a
/// malformed one, and the outcome depends on the input bytes alone.
#[verifier::external_body]
fn parse_ntriples_raw(input: &[u8]) -> (r: Vec<Option<RawTriple>>)
    ensures
        statements_view(r@) == ntriples_statements(input@),
{
    let mut parser = rio_turtle::NTriplesParser::new(input);
    let mut out: Vec<Option<RawTriple>> = Vec::new();
    while !rio_api::parser::TriplesParser::is_end(&parser) {
        let step = rio_api::parser::TriplesParser::parse_step(&mut parser, &mut |t| {
            out.push(Some(RawTriple { subject: raw_subject(t),
                predicate: t.predicate.iri.to_string(), object: raw_object(t) }));
            Ok::<(), rio_turtle::TurtleError>(())
        });
        if step.is_err() { out.push(None); }
    }
    out
}

/// Relies on rio_turtle::TurtleParser and oxiri::Iri::parse: the parser
/// reads the input under the given (usable) base IRI until its end or
/// its first syntax error (after an error the parser may stand still,
/// so reading on could loop forever), and the outcome depends on the
/// input bytes and the base alone.
#[verifier::external_body]
fn parse_turtle_raw(input: &[u8], base: Option<&str>) -> (r: Vec<Option<RawTriple>>)
    requires
        match base {
            Some(b) => is_valid_base_iri(b@),
            None => true,
        },
    ensures
        statements_view(r@) == turtle_statements(
            input@,
            match base {
                Some(b) => Some(b@),
                None => None,
            },
        ),
{
    let base_iri = base.map(|b| oxiri::Iri::parse(b.to_string()).unwrap());
    let mut parser = rio_turtle::TurtleParser::new(input, base_iri);
    let mut out: Vec<Option<RawTriple>> = Vec::new();
    while !rio_api::parser::TriplesParser::is_end(&parser) {
        let step = rio_api::parser::TriplesParser::parse_step(&mut parser, &mut |t| {
            out.push(Some(RawTriple { subject: raw_subject(t),
                predicate: t.predicate.iri.to_string(), object: raw_object(t) }));
            Ok::<(), rio_turtle::TurtleError>(())
        });
        if step.is_err() { out.push(None); break; }
    }
    out
}

/// Relies on rio_xml::RdfXmlParser and oxiri::Iri::parse: the parser
/// reads the input under the given (usable) base IRI until its end or
/// its first syntax error (XML errors are not recoverable), and the
/// outcome depends on the input bytes and the base alone.
#[verifier::external_body]
fn parse_rdf_xml_raw(input: &[u8], base: Option<&str>) -> (r: Vec<Option<RawTriple>>)
    requires
        match base {
            Some(b) => is_valid_base_iri(b@),
            None => true,
        },
    ensures
        statements_view(r@) == rdf_xml_statements(
            input@,
            match base {
                Some(b) => Some(b@),
                None => None,
            },
        ),
{
    let base_iri = base.map(|b| oxiri::Iri::parse(b.to_string()).unwrap());
    let mut parser = rio_xml::RdfXmlParser::new(input, base_iri);
    let mut out: Vec<Option<RawTriple>> = Vec::new();
    while !rio_api::parser::TriplesParser::is_end(&parser) {
        let step = rio_api::parser::TriplesParser::parse_step(&mut parser, &mut |t| {
            out.push(Some(RawTriple { subject: raw_subject(t),
                predicate: t.predicate.iri.to_string(), object: raw_object(t) }));
            Ok::<(), rio_xml::RdfXmlError>(())
        });
        if step.is_err() { out.push(None); break; }
    }
    out
}

// ------------------------------------------------------------------
// Validation of literals against their datatypes
// ------------------------------------------------------------------

/// A decimal digit.
pub open spec fn spec_is_digit(c: char) -> bool {
    '0' <= c && c <= '9'
}

/// Every character of `s` is a digit.
pub open spec fn spec_all_digits(s: Seq<char>) -> bool {
    forall|i: int| 0 <= i < s.len() ==> spec_is_digit(#[trigger] s[i])
}

/// The lexical form of an integer: an optional sign and at least one digit.
pub open spec fn spec_is_integer_lexical(s: Seq<char>) -> bool {
    if s.len() == 0 {
        false
    } else {
        let t = if s[0] == '+' || s[0] == '-' {
            s.skip(1)
        } else {
            s
        };
        t.len() > 0 && spec_all_digits(t)
    }
}

/// The lexical form of a decimal after the sign: digits, with at most
/// one dot, and at least one digit somewhere.
pub open spec fn spec_is_decimal_body(t: Seq<char>) -> bool {
    exists|k: int|
        #![trigger t.take(k)]
        0 <= k <= t.len()
            && spec_all_digits(t.take(k))
            && (k == t.len() || (t[k] == '.' && spec_all_digits(t.skip(k + 1))))
            && (k > 0 || k + 1 < t.len())
}

/// The lexical form of a decimal: an optional sign, digits with at most
/// one dot, and at least one digit.
pub open spec fn spec_is_decimal_lexical(s: Seq<char>) -> bool {
    if s.len() == 0 {
        false
    } else {
        let t = if s[0] == '+' || s[0] == '-' {
            s.skip(1)
        } else {
            s
        };
        t.len() > 0 && spec_is_decimal_body(t)
    }
}

/// Check the integer lexical form.
pub fn is_integer_lexical(s: &str) -> (r: bool)
    ensures
        r == spec_is_integer_lexical(s@),
{
    let n = s.unicode_len();
    if n == 0 {
        return false;
    }
    let c0 = s.get_char(0);
    let start: usize = if c0 == '+' || c0 == '-' { 1 } else { 0 };
    if start >= n {
        proof {
            assert(s@.skip(1).len() == 0);
        }
        return false;
    }
    let mut i: usize = start;
    while i < n
        invariant
            n == s@.len(),
            n >= 1,
            start <= i <= n,
            start <= 1,
            (start == 1) <==> (s@[0] == '+' || s@[0] == '-'),
            forall|k: int| start <= k < i ==> spec_is_digit(#[trigger] s@[k]),
        decreases n - i,
    {
        let c = s.get_char(i);
        if !('0' <= c && c <= '9') {
            proof {
                if start == 1 {
                    assert(s@.skip(1)[i - 1] == s@[i as int]);
                    assert(!spec_all_digits(s@.skip(1)));
                } else {
                    assert(!spec_all_digits(s@));
                }
            }
            return false;
        }
        i = i + 1;
    }
    proof {
        if start == 1 {
            assert forall|k: int| 0 <= k < s@.skip(1).len() implies
                spec_is_digit(#[trigger] s@.skip(1)[k]) by {
                assert(s@.skip(1)[k] == s@[k + 1]);
            }
        }
    }
    true
}

/// Check the decimal lexical form.
pub fn is_decimal_lexical(s: &str) -> (r: bool)
    ensures
        r == spec_is_decimal_lexical(s@),
{
    let n = s.unicode_len();
    if n == 0 {
        return false;
    }
    let c0 = s.get_char(0);
    let start: usize = if c0 == '+' || c0 == '-' { 1 } else { 0 };
    if start >= n {
        proof {
            assert(s@.skip(1).len() == 0);
        }
        return false;
    }
    let ghost t = if start == 1 { s@.skip(1) } else { s@ };
    proof {
        assert forall|k: int| 0 <= k < t.len() implies t[k] == s@[k + start] by {}
    }
    // scan the digits before a possible dot
    let mut i: usize = start;
    while i < n
        invariant
            n == s@.len(),
            n >= 1,
            start <= i <= n,
            start <= 1,
            (start == 1) <==> (s@[0] == '+' || s@[0] == '-'),
            t == (if start == 1 { s@.skip(1) } else { s@ }),
            t.len() == n - start,
            forall|k: int| 0 <= k < t.len() ==> t[k] == s@[k + start],
            forall|k: int| start <= k < i ==> spec_is_digit(#[trigger] s@[k]),
        decreases n - i,
    {
        let c = s.get_char(i);
        if c == '.' {
            // the rest must be digits, and a digit must exist somewhere
            if i == start && i + 1 >= n {
                proof {
                    lemma_decimal_body_refuted_dot(t, (i - start) as int);
                }
                return false;
            }
            let mut j: usize = i + 1;
            while j < n
                invariant
                    n == s@.len(),
                    n >= 1,
                    start <= i < n,
                    i < j <= n,
                    start <= 1,
                    (start == 1) <==> (s@[0] == '+' || s@[0] == '-'),
                    i > start || i + 1 < n,
                    t == (if start == 1 { s@.skip(1) } else { s@ }),
                    t.len() == n - start,
                    forall|k: int| 0 <= k < t.len() ==> t[k] == s@[k + start],
                    forall|k: int| start <= k < i ==> spec_is_digit(#[trigger] s@[k]),
                    s@[i as int] == '.',
                    forall|k: int| i < k < j ==> spec_is_digit(#[trigger] s@[k]),
                decreases n - j,
            {
                let c2 = s.get_char(j);
                if !('0' <= c2 && c2 <= '9') {
                    proof {
                        lemma_decimal_body_refuted_bad(t, (i - start) as int, (j - start) as int);
                    }
                    return false;
                }
                j = j + 1;
            }
            proof {
                let kd = (i - start) as int;
                assert(spec_all_digits(t.take(kd))) by {
                    assert forall|k: int| 0 <= k < t.take(kd).len() implies
                        spec_is_digit(#[trigger] t.take(kd)[k]) by {
                        assert(t.take(kd)[k] == s@[k + start]);
                    }
                }
                assert(t[kd] == '.');
                assert(spec_all_digits(t.skip(kd + 1))) by {
                    assert forall|k: int| 0 <= k < t.skip(kd + 1).len() implies
                        spec_is_digit(#[trigger] t.skip(kd + 1)[k]) by {
                        assert(t.skip(kd + 1)[k] == s@[k + kd + 1 + start]);
                    }
                }
                assert(kd > 0 || kd + 1 < t.len());
            }
            return true;
        }
        if !('0' <= c && c <= '9') {
            proof {
                lemma_decimal_body_refuted_bad(t, (i - start) as int, (i - start) as int);
            }
            return false;
        }
        i = i + 1;
    }
    // all digits, no dot
    proof {
        let kd = t.len() as int;
        assert(spec_all_digits(t.take(kd))) by {
            assert forall|k: int| 0 <= k < t.take(kd).len() implies
                spec_is_digit(#[trigger] t.take(kd)[k]) by {
                assert(t.take(kd)[k] == s@[k + start]);
            }
        }
        assert(kd > 0);
    }
    true
}

/// A lone dot is no decimal: with an empty digit prefix and an empty
/// fraction no witness position fits.
proof fn lemma_decimal_body_refuted_dot(t: Seq<char>, d: int)
    requires
        0 <= d < t.len(),
        t[d] == '.',
        d == 0,
        d + 1 >= t.len(),
        forall|k: int| 0 <= k < d ==> spec_is_digit(#[trigger] t[k]),
    ensures
        !spec_is_decimal_body(t),
{
    assert forall|k: int|
        #![trigger t.take(k)]
        0 <= k <= t.len() implies !(spec_all_digits(t.take(k))
            && (k == t.len() || (t[k] == '.' && spec_all_digits(t.skip(k + 1))))
            && (k > 0 || k + 1 < t.len())) by {
        if 0 <= k <= t.len() && spec_all_digits(t.take(k)) {
            if k > d {
                assert(t.take(k)[d] == t[d]);
                assert(!spec_is_digit('.'));
            }
        }
    }
}

/// A non-digit at `b` (that is not a first dot at `d`) refutes the
/// decimal body: every candidate dot position hits it.
proof fn lemma_decimal_body_refuted_bad(t: Seq<char>, d: int, b: int)
    requires
        0 <= d <= b < t.len(),
        forall|k: int| 0 <= k < d ==> spec_is_digit(#[trigger] t[k]),
        d < b ==> t[d] == '.',
        d < b ==> forall|k: int| d < k < b ==> spec_is_digit(#[trigger] t[k]),
        !spec_is_digit(t[b]),
        d < b ==> t[b] != '.' || !spec_is_digit(t[b]),
        d == b ==> t[b] != '.',
    ensures
        !spec_is_decimal_body(t),
{
    assert forall|k: int|
        #![trigger t.take(k)]
        0 <= k <= t.len() implies !(spec_all_digits(t.take(k))
            && (k == t.len() || (t[k] == '.' && spec_all_digits(t.skip(k + 1))))
            && (k > 0 || k + 1 < t.len())) by {
        if 0 <= k <= t.len() && spec_all_digits(t.take(k)) {
            if d == b {
                // the first offender is neither digit nor dot
                if k > b {
                    assert(t.take(k)[b] == t[b]);
                } else if k < t.len() && t[k] == '.' {
                    if k < b {
                        assert(spec_is_digit(t[k]) || k >= d);
                        if k < d {
                            assert(spec_is_digit(t[k]));
                        }
                        assert(k >= d);
                        assert(k == d ==> t[k] != '.');
                        if k > d {
                            assert(spec_is_digit(t[k]));
                        }
                    } else if k == b {
                        assert(t[k] != '.');
                    } else {
                        assert(t.take(k)[b] == t[b]);
                    }
                }
            } else {
                // the dot stood at d; the offender b is past it
                if k > d {
                    assert(t.take(k)[d] == t[d]);
                    assert(!spec_is_digit('.'));
                } else if k < t.len() && t[k] == '.' {
                    if k < d {
                        assert(spec_is_digit(t[k]));
                    }
                    assert(k == d);
                    assert(t.skip(k + 1)[b - k - 1] == t[b]);
                    assert(!spec_all_digits(t.skip(k + 1)));
                }
            }
        }
    }
}

/// The datatype IRI of integers.
pub open spec fn spec_xsd_integer() -> Seq<char> {
    "http://www.w3.org/2001/XMLSchema#integer"@
}

/// The datatype IRI of decimals.
pub open spec fn spec_xsd_decimal() -> Seq<char> {
    "http://www.w3.org/2001/XMLSchema#decimal"@
}

/// A term the data model accepts: no embedded triple, and a typed
/// literal of a known numeric datatype must have the matching lexical
/// form.
pub open spec fn spec_term_valid(t: TermView) -> bool {
    match t {
        TermView::Star => false,
        TermView::Typed { value, datatype } => {
            if datatype == spec_xsd_integer() {
                spec_is_integer_lexical(value)
            } else if datatype == spec_xsd_decimal() {
                spec_is_decimal_lexical(value)
            } else {
                true
            }
        },
        _ => true,
    }
}

/// A triple the data model accepts: a proper subject and a valid object.
pub open spec fn spec_triple_valid(t: TripleView) -> bool {
    &&& (t.subject is Iri || t.subject is Blank)
    &&& spec_term_valid(t.object)
}

/// Check a term against the data model.
pub fn term_valid(t: &TermRepr) -> (r: bool)
    ensures
        r == spec_term_valid(t@),
{
    match t {
        TermRepr::Star => false,
        TermRepr::Typed { value, datatype } => {
            if crate::parser::str_eq(
                datatype.as_str(),
                "http://www.w3.org/2001/XMLSchema#integer",
            ) {
                is_integer_lexical(value.as_str())
            } else if crate::parser::str_eq(
                datatype.as_str(),
                "http://www.w3.org/2001/XMLSchema#decimal",
            ) {
                is_decimal_lexical(value.as_str())
            } else {
                true
            }
        },
        _ => true,
    }
}

/// Check a triple against the data model.
pub fn triple_valid(t: &RawTriple) -> (r: bool)
    ensures
        r == spec_triple_valid(t@),
{
    let subject_ok = match &t.subject {
        TermRepr::Iri(_) => true,
        TermRepr::Blank(_) => true,
        _ => false,
    };
    subject_ok && term_valid(&t.object)
}

// ------------------------------------------------------------------
// Rendering terms to their canonical dictionary strings
// ------------------------------------------------------------------

/// The canonical text a term is interned under: IRIs plain, blank
/// nodes with their prefix, literals quoted with their decorations.
pub open spec fn spec_render_term(t: TermView) -> Seq<char> {
    match t {
        TermView::Iri(s) => s,
        TermView::Blank(id) => "_:"@ + id,
        TermView::Simple(v) => "\""@ + v + "\""@,
        TermView::Language { value, tag } => "\""@ + value + "\"@"@ + tag,
        TermView::Typed { value, datatype } => "\""@ + value + "\"^^<"@ + datatype + ">"@,
        TermView::Star => Seq::empty(),
    }
}

/// Render a term to its canonical text.
pub fn render_term(t: &TermRepr) -> (r: String)
    ensures
        r@ == spec_render_term(t@),
{
    match t {
        TermRepr::Iri(s) => crate::dictionary::clone_string(s),
        TermRepr::Blank(id) => {
            let mut s = String::from_str("_:");
            s.append(id.as_str());
            s
        },
        TermRepr::Simple(v) => {
            let mut s = String::from_str("\"");
            s.append(v.as_str());
            s.append("\"");
            s
        },
        TermRepr::Language { value, tag } => {
            let mut s = String::from_str("\"");
            s.append(value.as_str());
            s.append("\"@");
            s.append(tag.as_str());
            s
        },
        TermRepr::Typed { value, datatype } => {
            let mut s = String::from_str("\"");
            s.append(value.as_str());
            s.append("\"^^<");
            s.append(datatype.as_str());
            s.append(">");
            s
        },
        TermRepr::Star => String::new(),
    }
}

// ------------------------------------------------------------------
// Loading parsed statements into columns
// ------------------------------------------------------------------

/// The triples the data model accepts, in statement order.
pub open spec fn valid_triples(sv: Seq<Option<TripleView>>) -> Seq<TripleView>
    decreases sv.len(),
{
    if sv.len() == 0 {
        Seq::empty()
    } else {
        valid_triples(sv.drop_last()) + (match sv.last() {
            Some(t) => if spec_triple_valid(t) {
                seq![t]
            } else {
                Seq::empty()
            },
            None => Seq::empty(),
        })
    }
}

/// The columns hold, row by row, the dictionary handles of the
/// rendered parts of the given triples.
pub open spec fn columns_hold_triples(
    s: Seq<u64>,
    p: Seq<u64>,
    o: Seq<u64>,
    dict: Seq<Seq<char>>,
    vt: Seq<TripleView>,
) -> bool {
    &&& s.len() == vt.len()
    &&& p.len() == vt.len()
    &&& o.len() == vt.len()
    &&& forall|i: int| 0 <= i < vt.len() ==> {
        &&& #[trigger] s[i] < dict.len() && dict[s[i] as int]
            == spec_render_term(vt[i].subject)
        &&& p[i] < dict.len() && dict[p[i] as int] == vt[i].predicate
        &&& o[i] < dict.len() && dict[o[i] as int] == spec_render_term(vt[i].object)
    }
}

/// Load the well-formed statements of a parse outcome into three
/// columns of dictionary handles.  A malformed statement or a triple
/// the data model refuses contributes no cell to any column; an
/// accepted triple contributes one cell to each.
pub fn load_triples(statements: &Vec<Option<RawTriple>>, dict: &mut Dictionary)
    -> (r: (ColumnT, ColumnT, ColumnT))
    requires
        old(dict).wf(),
    ensures
        final(dict).wf(),
        r.0.wf() && r.1.wf() && r.2.wf(),
        columns_hold_triples(
            r.0@, r.1@, r.2@, final(dict)@,
            valid_triples(statements_view(statements@)),
        ),
        final(dict)@.len() >= old(dict)@.len(),
        forall|k: int| 0 <= k < old(dict)@.len()
            ==> final(dict)@[k] == old(dict)@[k],
    {
    let ghost sv = statements_view(statements@);
    let mut sb = AdaptiveColumnBuilder::new();
    let mut pb = AdaptiveColumnBuilder::new();
    let mut ob = AdaptiveColumnBuilder::new();
    let n = statements.len();
    let mut i: usize = 0;
    proof {
        assert(sv.take(0) =~= Seq::<Option<TripleView>>::empty());
        assert(valid_triples(sv.take(0)) =~= Seq::<TripleView>::empty());
    }
    while i < n
        invariant
            n == statements@.len(),
            i <= n,
            sv == statements_view(statements@),
            dict.wf(),
            dict@.len() >= old(dict)@.len(),
            forall|k: int| 0 <= k < old(dict)@.len() ==> dict@[k] == old(dict)@[k],
            columns_hold_triples(sb@, pb@, ob@, dict@, valid_triples(sv.take(i as int))),
        decreases n - i,
    {
        let ghost vt_pre = valid_triples(sv.take(i as int));
        proof {
            assert(sv.take(i as int + 1).drop_last() =~= sv.take(i as int));
            assert(sv.take(i as int + 1).last() == sv[i as int]);
        }
        match &statements[i] {
            None => {
                proof {
                    assert(valid_triples(sv.take(i as int + 1)) =~= vt_pre);
                }
            },
            Some(raw) => {
                if triple_valid(raw) {
                    let ghost d0 = dict@;
                    let s_handle = dict.add(render_term(&raw.subject));
                    let ghost d1 = dict@;
                    let p_handle = dict.add(crate::dictionary::clone_string(&raw.predicate));
                    let ghost d2 = dict@;
                    let o_handle = dict.add(render_term(&raw.object));
                    sb.add(s_handle as u64);
                    pb.add(p_handle as u64);
                    ob.add(o_handle as u64);
                    proof {
                        assert(valid_triples(sv.take(i as int + 1))
                            =~= vt_pre.push(sv[i as int]->0));
                        assert(sv[i as int]->0 == raw@);
                        // the dictionary only grows, so old handles stay valid
                        assert(forall|k: int| 0 <= k < d0.len() ==> d1[k] == d0[k]);
                        assert(forall|k: int| 0 <= k < d1.len() ==> d2[k] == d1[k]);
                        assert(forall|k: int| 0 <= k < d2.len() ==> dict@[k] == d2[k]);
                        assert(forall|k: int| 0 <= k < d0.len() ==> dict@[k] == d0[k]);
                        let vt_post = valid_triples(sv.take(i as int + 1));
                        assert forall|j: int| 0 <= j < vt_post.len() implies {
                            &&& #[trigger] sb@[j] < dict@.len() && dict@[sb@[j] as int]
                                == spec_render_term(vt_post[j].subject)
                            &&& pb@[j] < dict@.len() && dict@[pb@[j] as int]
                                == vt_post[j].predicate
                            &&& ob@[j] < dict@.len() && dict@[ob@[j] as int]
                                == spec_render_term(vt_post[j].object)
                        } by {
                            if j < vt_pre.len() {
                                assert(vt_post[j] == vt_pre[j]);
                                assert(sb@[j] < d0.len() && d0[sb@[j] as int]
                                    == spec_render_term(vt_pre[j].subject));
                                assert(pb@[j] < d0.len() && d0[pb@[j] as int]
                                    == vt_pre[j].predicate);
                                assert(ob@[j] < d0.len() && d0[ob@[j] as int]
                                    == spec_render_term(vt_pre[j].object));
                            } else {
                                assert(j == vt_pre.len());
                                assert(vt_post[j] == raw@);
                                assert(sb@[j] == s_handle as u64);
                                assert(pb@[j] == p_handle as u64);
                                assert(ob@[j] == o_handle as u64);
                            }
                        }
                    }
                } else {
                    proof {
                        assert(valid_triples(sv.take(i as int + 1)) =~= vt_pre);
                    }
                }
            },
        }
        i = i + 1;
    }
    proof {
        assert(sv.take(n as int) =~= sv);
    }
    (sb.finalize(), pb.finalize(), ob.finalize())
}

// ------------------------------------------------------------------
// The reader: format dispatch by resource name
// ------------------------------------------------------------------

/// `s` ends with `suffix`.
pub open spec fn spec_ends_with(s: Seq<char>, suffix: Seq<char>) -> bool {
    s.len() >= suffix.len() && s.skip(s.len() - suffix.len()) == suffix
}

/// Whether `s` ends with `suffix`.
pub fn str_ends_with(s: &str, suffix: &str) -> (r: bool)
    ensures
        r == spec_ends_with(s@, suffix@),
{
    let n = s.unicode_len();
    let m = suffix.unicode_len();
    if m > n {
        return false;
    }
    let mut k: usize = 0;
    while k < m
        invariant
            n == s@.len(),
            m == suffix@.len(),
            m <= n,
            k <= m,
            forall|j: int| 0 <= j < k ==> s@[n - m + j] == suffix@[j],
        decreases m - k,
    {
        if s.get_char(n - m + k) != suffix.get_char(k) {
            proof {
                assert(s@.skip(n as int - m as int)[k as int] == s@[n - m + k]);
            }
            return false;
        }
        k = k + 1;
    }
    proof {
        assert(s@.skip(n as int - m as int) =~= suffix@);
    }
    true
}

/// The error of the triples reader: the declared base IRI is unusable.
#[derive(Debug, Clone, PartialEq, Eq)]
pub enum RdfError {
    /// The base could not be parsed as an absolute IRI.
    InvalidBaseIri,
}

/// A declaration of an RDF file resource with an optional base IRI.
#[derive(Debug, Clone)]
pub struct RdfFile {
    /// The resource name; its ending picks the format.
    pub resource: String,
    /// The base IRI, if one was declared.
    pub base: Option<String>,
}

impl RdfFile {
    /// Declare a resource with an optional base.
    pub fn new(resource: &str, base: Option<&str>) -> (r: RdfFile)
        ensures
            r.resource@ == resource@,
            match base {
                Some(b) => r.base matches Some(rb) && rb@ == b@,
                None => r.base is None,
            },
    {
        RdfFile {
            resource: resource.to_owned(),
            base: match base {
                Some(b) => Some(b.to_owned()),
                None => None,
            },
        }
    }
}

/// The format a resource name selects: Turtle for `.ttl` endings,
/// RDF/XML for `.rdf` endings, N-Triples otherwise.
pub open spec fn spec_format_is_turtle(resource: Seq<char>) -> bool {
    spec_ends_with(resource, ".ttl.gz"@) || spec_ends_with(resource, ".ttl"@)
}

/// The resource name selects RDF/XML.
pub open spec fn spec_format_is_rdf_xml(resource: Seq<char>) -> bool {
    !spec_format_is_turtle(resource)
        && (spec_ends_with(resource, ".rdf.gz"@) || spec_ends_with(resource, ".rdf"@))
}

/// The statements the selected parser finds in the input.
pub open spec fn spec_read_statements(
    resource: Seq<char>,
    base: Option<Seq<char>>,
    input: Seq<u8>,
) -> Seq<Option<TripleView>> {
    if spec_format_is_turtle(resource) {
        turtle_statements(input, base)
    } else if spec_format_is_rdf_xml(resource) {
        rdf_xml_statements(input, base)
    } else {
        ntriples_statements(input)
    }
}

/// A reader for RDF files containing triples.
#[derive(Debug, Clone)]
pub struct RDFTriplesReader {
    resource: String,
    base: Option<String>,
}

impl RDFTriplesReader {
    /// The resource name.
    pub closed spec fn spec_resource(&self) -> Seq<char> {
        self.resource@
    }

    /// The declared base IRI.
    pub closed spec fn spec_base(&self) -> Option<Seq<char>> {
        match self.base {
            Some(ref b) => Some(b@),
            None => None,
        }
    }

    /// Create a new reader for the given file declaration.
    pub fn new(rdf_file: &RdfFile) -> (r: RDFTriplesReader)
        ensures
            r.spec_resource() == rdf_file.resource@,
            match rdf_file.base {
                Some(ref b) => r.spec_base() == Some(b@),
                None => r.spec_base() is None,
            },
    {
        RDFTriplesReader {
            resource: crate::dictionary::clone_string(&rdf_file.resource),
            base: match &rdf_file.base {
                Some(b) => Some(crate::dictionary::clone_string(b)),
                None => None,
            },
        }
    }

    /// Parse the input in the format the resource name selects and load
    /// the well-formed triples into three columns of dictionary handles;
    /// malformed statements and refused triples leave no cells behind.
    pub fn read_triples(&self, data: &[u8], dict: &mut Dictionary)
        -> (r: Result<(ColumnT, ColumnT, ColumnT), RdfError>)
        requires
            old(dict).wf(),
        ensures
            final(dict).wf(),
            match r {
                Ok(cols) => {
                    &&& cols.0.wf() && cols.1.wf() && cols.2.wf()
                    &&& columns_hold_triples(
                        cols.0@, cols.1@, cols.2@, final(dict)@,
                        valid_triples(spec_read_statements(
                            self.spec_resource(), self.spec_base(), data@)),
                    )
                    &&& match self.spec_base() {
                        Some(b) => (spec_format_is_turtle(self.spec_resource())
                            || spec_format_is_rdf_xml(self.spec_resource()))
                            ==> is_valid_base_iri(b),
                        None => true,
                    }
                },
                Err(e) => e == RdfError::InvalidBaseIri
                    && match self.spec_base() {
                        Some(b) => !is_valid_base_iri(b),
                        None => false,
                    }
                    && (spec_format_is_turtle(self.spec_resource())
                        || spec_format_is_rdf_xml(self.spec_resource())),
            },
    {
        let base: Option<&str> = match &self.base {
            Some(b) => Some(b.as_str()),
            None => None,
        };
        let is_turtle = str_ends_with(self.resource.as_str(), ".ttl.gz")
            || str_ends_with(self.resource.as_str(), ".ttl");
        let is_rdf_xml = !is_turtle
            && (str_ends_with(self.resource.as_str(), ".rdf.gz")
                || str_ends_with(self.resource.as_str(), ".rdf"));
        if is_turtle || is_rdf_xml {
            match base {
                Some(b) => {
                    if !check_base_iri(b) {
                        return Err(RdfError::InvalidBaseIri);
                    }
                },
                None => (),
            }
        }
        let statements: Vec<Option<RawTriple>> = if is_turtle {
            parse_turtle_raw(data, base)
        } else if is_rdf_xml {
            parse_rdf_xml_raw(data, base)
        } else {
            parse_ntriples_raw(data)
        };
        Ok(load_triples(&statements, dict))
    }
}

} // verus!
