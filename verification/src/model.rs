//! The rule-model data types: terms, atoms, literals, rules, facts and
//! programs, together with the validation rules a parsed rule must pass.

use vstd::prelude::*;
use crate::double::Double;
use crate::parser::{ParseError, RuleParser};

verus! {

/// An identifier for, e.g., a term or a predicate: a dictionary handle.
#[derive(Debug, Eq, PartialEq, Hash, Copy, Clone, Structural)]
pub struct Identifier(pub usize);

/// A numerical literal.
#[derive(Debug, Eq, PartialEq, Copy, Clone)]
pub enum NumericLiteral {
    /// An integer literal.
    Integer(i64),
    /// A decimal literal: integral part and fractional digits.
    Decimal(i64, u64),
    /// A double literal.
    Double(Double),
}

/// An RDF literal, both parts interned.
#[derive(Debug, Eq, PartialEq, Hash, Copy, Clone)]
pub enum RdfLiteral {
    /// A language string.
    LanguageString {
        /// The literal value.
        value: usize,
        /// The language tag.
        tag: usize,
    },
    /// A literal with a datatype.
    DatatypeValue {
        /// The literal value.
        value: usize,
        /// The datatype IRI.
        datatype: usize,
    },
}

/// Terms occurring in programs.
#[derive(Debug, Eq, PartialEq, Copy, Clone)]
pub enum Term {
    /// An (abstract) constant.
    Constant(Identifier),
    /// A (universally quantified) variable.
    Variable(Identifier),
    /// An existentially quantified variable.
    ExistentialVariable(Identifier),
    /// A numeric literal.
    NumericLiteral(NumericLiteral),
    /// An RDF literal.
    RdfLiteral(RdfLiteral),
}

/// A term that stands for no fixed value.
pub open spec fn is_variable_term(t: Term) -> bool {
    t is Variable || t is ExistentialVariable
}

/// The variables of a term sequence, in order.
pub open spec fn filter_variables(s: Seq<Term>) -> Seq<Term>
    decreases s.len(),
{
    if s.len() == 0 {
        Seq::empty()
    } else if is_variable_term(s.last()) {
        filter_variables(s.drop_last()).push(s.last())
    } else {
        filter_variables(s.drop_last())
    }
}

/// The universally quantified variables of a term sequence, in order.
pub open spec fn universal_vars(s: Seq<Term>) -> Seq<Identifier>
    decreases s.len(),
{
    if s.len() == 0 {
        Seq::empty()
    } else if s.last() is Variable {
        universal_vars(s.drop_last()).push(s.last()->Variable_0)
    } else {
        universal_vars(s.drop_last())
    }
}

/// The existentially quantified variables of a term sequence, in order.
pub open spec fn existential_vars(s: Seq<Term>) -> Seq<Identifier>
    decreases s.len(),
{
    if s.len() == 0 {
        Seq::empty()
    } else if s.last() is ExistentialVariable {
        existential_vars(s.drop_last()).push(s.last()->ExistentialVariable_0)
    } else {
        existential_vars(s.drop_last())
    }
}

/// `universal_vars` holds exactly the identifiers of `Variable` terms.
pub proof fn lemma_universal_vars_contains(s: Seq<Term>, v: Identifier)
    ensures
        universal_vars(s).contains(v)
            <==> exists|j: int| 0 <= j < s.len() && s[j] == Term::Variable(v),
    decreases s.len(),
{
    if s.len() > 0 {
        lemma_universal_vars_contains(s.drop_last(), v);
        let prefix = s.drop_last();
        if universal_vars(s).contains(v) {
            if s.last() is Variable && s.last()->Variable_0 == v {
                assert(s[s.len() - 1] == Term::Variable(v));
            } else {
                let k = choose|k: int|
                    0 <= k < universal_vars(s).len() && universal_vars(s)[k] == v;
                if s.last() is Variable {
                    assert(universal_vars(prefix).contains(v)) by {
                        assert(universal_vars(prefix)[k] == v);
                    }
                } else {
                    assert(universal_vars(prefix).contains(v)) by {
                        assert(universal_vars(prefix)[k] == v);
                    }
                }
                let j = choose|j: int| 0 <= j < prefix.len() && prefix[j] == Term::Variable(v);
                assert(s[j] == Term::Variable(v));
            }
        }
        if exists|j: int| 0 <= j < s.len() && s[j] == Term::Variable(v) {
            let j = choose|j: int| 0 <= j < s.len() && s[j] == Term::Variable(v);
            if j == s.len() - 1 {
                assert(universal_vars(s).last() == v);
            } else {
                assert(prefix[j] == Term::Variable(v));
                assert(universal_vars(prefix).contains(v));
                let k = choose|k: int|
                    0 <= k < universal_vars(prefix).len() && universal_vars(prefix)[k] == v;
                if s.last() is Variable {
                    assert(universal_vars(s)[k] == v);
                } else {
                    assert(universal_vars(s)[k] == v);
                }
            }
        }
    }
}

/// `existential_vars` holds exactly the identifiers of
/// `ExistentialVariable` terms.
pub proof fn lemma_existential_vars_contains(s: Seq<Term>, v: Identifier)
    ensures
        existential_vars(s).contains(v)
            <==> exists|j: int| 0 <= j < s.len() && s[j] == Term::ExistentialVariable(v),
    decreases s.len(),
{
    if s.len() > 0 {
        lemma_existential_vars_contains(s.drop_last(), v);
        let prefix = s.drop_last();
        if existential_vars(s).contains(v) {
            if s.last() is ExistentialVariable && s.last()->ExistentialVariable_0 == v {
                assert(s[s.len() - 1] == Term::ExistentialVariable(v));
            } else {
                let k = choose|k: int|
                    0 <= k < existential_vars(s).len() && existential_vars(s)[k] == v;
                assert(existential_vars(prefix).contains(v)) by {
                    assert(existential_vars(prefix)[k] == v);
                }
                let j = choose|j: int|
                    0 <= j < prefix.len() && prefix[j] == Term::ExistentialVariable(v);
                assert(s[j] == Term::ExistentialVariable(v));
            }
        }
        if exists|j: int| 0 <= j < s.len() && s[j] == Term::ExistentialVariable(v) {
            let j = choose|j: int|
                0 <= j < s.len() && s[j] == Term::ExistentialVariable(v);
            if j == s.len() - 1 {
                assert(existential_vars(s).last() == v);
            } else {
                assert(prefix[j] == Term::ExistentialVariable(v));
                assert(existential_vars(prefix).contains(v));
                let k = choose|k: int|
                    0 <= k < existential_vars(prefix).len()
                        && existential_vars(prefix)[k] == v;
                assert(existential_vars(s)[k] == v);
            }
        }
    }
}

impl Term {
    /// Whether the term is ground (no variable of either kind).
    pub fn is_ground(&self) -> (r: bool)
        ensures
            r == !is_variable_term(*self),
    {
        match self {
            Term::Constant(_) => true,
            Term::NumericLiteral(_) => true,
            Term::RdfLiteral(_) => true,
            Term::Variable(_) => false,
            Term::ExistentialVariable(_) => false,
        }
    }
}

/// An atom: a predicate applied to a list of terms.
#[derive(Debug, Eq, PartialEq, Clone)]
pub struct Atom {
    /// The predicate.
    pub predicate: Identifier,
    /// The terms.
    pub terms: Vec<Term>,
}

impl Atom {
    /// Construct a new atom.
    pub fn new(predicate: Identifier, terms: Vec<Term>) -> (r: Atom)
        ensures
            r.predicate == predicate,
            r.terms@ == terms@,
    {
        Atom { predicate, terms }
    }

    /// The predicate identifier.
    pub fn predicate(&self) -> (r: Identifier)
        ensures
            r == self.predicate,
    {
        self.predicate
    }

    /// The terms of the atom.
    pub fn terms(&self) -> (r: &Vec<Term>)
        ensures
            r@ == self.terms@,
    {
        &self.terms
    }

    /// All variables of the atom, in order.
    pub fn variables(&self) -> (r: Vec<Term>)
        ensures
            r@ == filter_variables(self.terms@),
    {
        let mut out: Vec<Term> = Vec::new();
        let n = self.terms.len();
        let mut i: usize = 0;
        proof {
            assert(self.terms@.take(0) =~= Seq::<Term>::empty());
        }
        while i < n
            invariant
                n == self.terms@.len(),
                i <= n,
                out@ == filter_variables(self.terms@.take(i as int)),
            decreases n - i,
        {
            let t = self.terms[i];
            proof {
                assert(self.terms@.take(i + 1).drop_last() =~= self.terms@.take(i as int));
                assert(self.terms@.take(i + 1).last() == self.terms@[i as int]);
            }
            match t {
                Term::Variable(_) => out.push(t),
                Term::ExistentialVariable(_) => out.push(t),
                _ => (),
            }
            i = i + 1;
        }
        proof {
            assert(self.terms@.take(n as int) =~= self.terms@);
        }
        out
    }

    /// All universally quantified variables of the atom, in order.
    pub fn universal_variables(&self) -> (r: Vec<Identifier>)
        ensures
            r@ == universal_vars(self.terms@),
    {
        let mut out: Vec<Identifier> = Vec::new();
        let n = self.terms.len();
        let mut i: usize = 0;
        proof {
            assert(self.terms@.take(0) =~= Seq::<Term>::empty());
        }
        while i < n
            invariant
                n == self.terms@.len(),
                i <= n,
                out@ == universal_vars(self.terms@.take(i as int)),
            decreases n - i,
        {
            let t = self.terms[i];
            proof {
                assert(self.terms@.take(i + 1).drop_last() =~= self.terms@.take(i as int));
                assert(self.terms@.take(i + 1).last() == self.terms@[i as int]);
            }
            match t {
                Term::Variable(v) => out.push(v),
                _ => (),
            }
            i = i + 1;
        }
        proof {
            assert(self.terms@.take(n as int) =~= self.terms@);
        }
        out
    }

    /// All existentially quantified variables of the atom, in order.
    pub fn existential_variables(&self) -> (r: Vec<Identifier>)
        ensures
            r@ == existential_vars(self.terms@),
    {
        let mut out: Vec<Identifier> = Vec::new();
        let n = self.terms.len();
        let mut i: usize = 0;
        proof {
            assert(self.terms@.take(0) =~= Seq::<Term>::empty());
        }
        while i < n
            invariant
                n == self.terms@.len(),
                i <= n,
                out@ == existential_vars(self.terms@.take(i as int)),
            decreases n - i,
        {
            let t = self.terms[i];
            proof {
                assert(self.terms@.take(i + 1).drop_last() =~= self.terms@.take(i as int));
                assert(self.terms@.take(i + 1).last() == self.terms@[i as int]);
            }
            match t {
                Term::ExistentialVariable(v) => out.push(v),
                _ => (),
            }
            i = i + 1;
        }
        proof {
            assert(self.terms@.take(n as int) =~= self.terms@);
        }
        out
    }
}

/// A literal: an atom or its negation.
#[derive(Debug, Eq, PartialEq, Clone)]
pub enum Literal {
    /// A non-negated literal.
    Positive(Atom),
    /// A negated literal.
    Negative(Atom),
}

/// The atom under a literal.
pub open spec fn spec_literal_atom(l: Literal) -> Atom {
    match l {
        Literal::Positive(a) => a,
        Literal::Negative(a) => a,
    }
}

impl Literal {
    /// Whether the literal is positive.
    pub fn is_positive(&self) -> (r: bool)
        ensures
            r == (self is Positive),
    {
        match self {
            Literal::Positive(_) => true,
            Literal::Negative(_) => false,
        }
    }

    /// Whether the literal is negative.
    pub fn is_negative(&self) -> (r: bool)
        ensures
            r == (self is Negative),
    {
        match self {
            Literal::Positive(_) => false,
            Literal::Negative(_) => true,
        }
    }

    /// The atom under the literal.
    pub fn atom(&self) -> (r: &Atom)
        ensures
            *r == spec_literal_atom(*self),
    {
        match self {
            Literal::Positive(atom) => atom,
            Literal::Negative(atom) => atom,
        }
    }

    /// The literal with the opposite sign.
    pub fn neg(self) -> (r: Literal)
        ensures
            spec_literal_atom(r) == spec_literal_atom(self),
            self is Positive <==> r is Negative,
    {
        match self {
            Literal::Positive(atom) => Literal::Negative(atom),
            Literal::Negative(atom) => Literal::Positive(atom),
        }
    }

    /// The terms of the literal.
    pub fn terms(&self) -> (r: &Vec<Term>)
        ensures
            r@ == spec_literal_atom(*self).terms@,
    {
        self.atom().terms()
    }

    /// All variables of the literal, in order.
    pub fn variables(&self) -> (r: Vec<Term>)
        ensures
            r@ == filter_variables(spec_literal_atom(*self).terms@),
    {
        self.atom().variables()
    }

    /// All universally quantified variables of the literal, in order.
    pub fn universal_variables(&self) -> (r: Vec<Identifier>)
        ensures
            r@ == universal_vars(spec_literal_atom(*self).terms@),
    {
        self.atom().universal_variables()
    }

    /// All existentially quantified variables of the literal, in order.
    pub fn existential_variables(&self) -> (r: Vec<Identifier>)
        ensures
            r@ == existential_vars(spec_literal_atom(*self).terms@),
    {
        self.atom().existential_variables()
    }
}

/// Some body literal holds an existentially quantified variable.
pub open spec fn body_has_existential(body: Seq<Literal>) -> bool {
    exists|i: int| 0 <= i < body.len()
        && existential_vars(spec_literal_atom(#[trigger] body[i]).terms@).len() > 0
}

/// `v` occurs universally quantified in the atom.
pub open spec fn atom_has_universal(a: Atom, v: Identifier) -> bool {
    universal_vars(a.terms@).contains(v)
}

/// `v` occurs existentially quantified in the atom.
pub open spec fn atom_has_existential(a: Atom, v: Identifier) -> bool {
    existential_vars(a.terms@).contains(v)
}

/// `v` occurs universally in a literal of the given polarity.
pub open spec fn body_has_universal(body: Seq<Literal>, v: Identifier, negative: bool) -> bool {
    exists|i: int| 0 <= i < body.len()
        && ((#[trigger] body[i]) is Negative) == negative
        && atom_has_universal(spec_literal_atom(body[i]), v)
}

/// Some variable occurs universally only in negative body literals.
pub open spec fn body_unsafe_negated(body: Seq<Literal>) -> bool {
    exists|v: Identifier|
        #[trigger] body_has_universal(body, v, true) && !body_has_universal(body, v, false)
}

/// `v` occurs universally in some head atom.
pub open spec fn head_has_universal(head: Seq<Atom>, v: Identifier) -> bool {
    exists|i: int| 0 <= i < head.len()
        && atom_has_universal(#[trigger] head[i], v)
}

/// `v` occurs existentially in some head atom.
pub open spec fn head_has_existential(head: Seq<Atom>, v: Identifier) -> bool {
    exists|i: int| 0 <= i < head.len()
        && atom_has_existential(#[trigger] head[i], v)
}

/// Some variable is quantified universally (in the body or the head)
/// and existentially (in the head) at once.
pub open spec fn mixed_quantifiers(head: Seq<Atom>, body: Seq<Literal>) -> bool {
    exists|v: Identifier|
        (#[trigger] head_has_existential(head, v))
            && (body_has_universal(body, v, true) || body_has_universal(body, v, false)
                || head_has_universal(head, v))
}

/// Whether `xs` holds `x`.
pub fn contains_id(xs: &Vec<Identifier>, x: Identifier) -> (r: bool)
    ensures
        r == xs@.contains(x),
{
    let n = xs.len();
    let mut i: usize = 0;
    while i < n
        invariant
            n == xs@.len(),
            i <= n,
            forall|k: int| 0 <= k < i ==> xs@[k] != x,
        decreases n - i,
    {
        if xs[i] == x {
            return true;
        }
        i = i + 1;
    }
    false
}

/// The universally quantified variables of the body literals of one
/// polarity, concatenated in order (duplicates kept).
pub open spec fn body_univ_cat(body: Seq<Literal>, negative: bool) -> Seq<Identifier>
    decreases body.len(),
{
    if body.len() == 0 {
        Seq::empty()
    } else if (body.last() is Negative) == negative {
        body_univ_cat(body.drop_last(), negative)
            + universal_vars(spec_literal_atom(body.last()).terms@)
    } else {
        body_univ_cat(body.drop_last(), negative)
    }
}

/// A concatenation holds a value exactly when one of its parts does.
proof fn lemma_concat_contains<A>(a: Seq<A>, b: Seq<A>, v: A)
    ensures
        (a + b).contains(v) <==> (a.contains(v) || b.contains(v)),
{
    if (a + b).contains(v) {
        let k = choose|k: int| 0 <= k < (a + b).len() && (a + b)[k] == v;
        if k < a.len() {
            assert(a[k] == v);
        } else {
            assert(b[k - a.len()] == v);
        }
    }
    if a.contains(v) {
        let k = choose|k: int| 0 <= k < a.len() && a[k] == v;
        assert((a + b)[k] == v);
    }
    if b.contains(v) {
        let k = choose|k: int| 0 <= k < b.len() && b[k] == v;
        assert((a + b)[a.len() + k] == v);
    }
}

/// `body_univ_cat` holds exactly the universally quantified variables
/// of the literals of the chosen polarity.
pub proof fn lemma_body_univ_cat_contains(body: Seq<Literal>, negative: bool, v: Identifier)
    ensures
        body_univ_cat(body, negative).contains(v)
            <==> body_has_universal(body, v, negative),
    decreases body.len(),
{
    if body.len() == 0 {
        if body_has_universal(body, v, negative) {
            let k = choose|k: int| 0 <= k < body.len()
                && ((#[trigger] body[k]) is Negative) == negative
                && atom_has_universal(spec_literal_atom(body[k]), v);
        }
    } else {
        let prefix = body.drop_last();
        lemma_body_univ_cat_contains(prefix, negative, v);
        lemma_universal_vars_contains(spec_literal_atom(body.last()).terms@, v);
        if (body.last() is Negative) == negative {
            lemma_concat_contains(
                body_univ_cat(prefix, negative),
                universal_vars(spec_literal_atom(body.last()).terms@),
                v,
            );
        }
        // relate membership in the whole body to prefix or last literal
        if body_has_universal(body, v, negative) {
            let k = choose|k: int| 0 <= k < body.len()
                && ((#[trigger] body[k]) is Negative) == negative
                && atom_has_universal(spec_literal_atom(body[k]), v);
            if k < body.len() - 1 {
                assert(prefix[k] == body[k]);
                assert(body_has_universal(prefix, v, negative));
            }
        }
        if body_has_universal(prefix, v, negative) {
            let k = choose|k: int| 0 <= k < prefix.len()
                && ((#[trigger] prefix[k]) is Negative) == negative
                && atom_has_universal(spec_literal_atom(prefix[k]), v);
            assert(body[k] == prefix[k]);
            assert(body_has_universal(body, v, negative));
        }
        if (body.last() is Negative) == negative
            && atom_has_universal(spec_literal_atom(body.last()), v) {
            assert(((body[body.len() - 1]) is Negative) == negative
                && atom_has_universal(spec_literal_atom(body[body.len() - 1]), v));
            assert(body_has_universal(body, v, negative));
        }
    }
}

/// Collect the universally quantified variables of the body literals
/// with the given polarity (`negative` selects the negated ones).
fn collect_body_universal(body: &Vec<Literal>, negative: bool) -> (r: Vec<Identifier>)
    ensures
        r@ == body_univ_cat(body@, negative),
        forall|v: Identifier| r@.contains(v)
            <==> body_has_universal(body@, v, negative),
{
    let mut out: Vec<Identifier> = Vec::new();
    let n = body.len();
    let mut i: usize = 0;
    proof {
        assert(body@.take(0) =~= Seq::<Literal>::empty());
    }
    while i < n
        invariant
            n == body@.len(),
            i <= n,
            out@ == body_univ_cat(body@.take(i as int), negative),
        decreases n - i,
    {
        let lit = &body[i];
        let is_neg = lit.is_negative();
        proof {
            assert(body@.take(i as int + 1).drop_last() =~= body@.take(i as int));
            assert(body@.take(i as int + 1).last() == body@[i as int]);
        }
        if is_neg == negative {
            let vars = lit.universal_variables();
            let ghost base = out@;
            let m = vars.len();
            let mut j: usize = 0;
            proof {
                assert(out@ =~= base + vars@.take(0));
            }
            while j < m
                invariant
                    m == vars@.len(),
                    j <= m,
                    out@ == base + vars@.take(j as int),
                decreases m - j,
            {
                let v = vars[j];
                out.push(v);
                proof {
                    assert(out@ =~= base + vars@.take(j as int + 1));
                }
                j = j + 1;
            }
            proof {
                assert(vars@.take(m as int) =~= vars@);
            }
        }
        i = i + 1;
    }
    proof {
        assert(body@.take(n as int) =~= body@);
        assert forall|v: Identifier| out@.contains(v)
            <==> body_has_universal(body@, v, negative) by {
            lemma_body_univ_cat_contains(body@, negative, v);
        }
    }
    out
}

/// The universally quantified variables of the head atoms, concatenated
/// in order (duplicates kept).
pub open spec fn head_univ_cat(head: Seq<Atom>) -> Seq<Identifier>
    decreases head.len(),
{
    if head.len() == 0 {
        Seq::empty()
    } else {
        head_univ_cat(head.drop_last()) + universal_vars(head.last().terms@)
    }
}

/// The existentially quantified variables of the head atoms,
/// concatenated in order (duplicates kept).
pub open spec fn head_exist_cat(head: Seq<Atom>) -> Seq<Identifier>
    decreases head.len(),
{
    if head.len() == 0 {
        Seq::empty()
    } else {
        head_exist_cat(head.drop_last()) + existential_vars(head.last().terms@)
    }
}

/// `head_univ_cat` holds exactly the universally quantified head variables.
pub proof fn lemma_head_univ_cat_contains(head: Seq<Atom>, v: Identifier)
    ensures
        head_univ_cat(head).contains(v) <==> head_has_universal(head, v),
    decreases head.len(),
{
    if head.len() == 0 {
        if head_has_universal(head, v) {
            let k = choose|k: int| 0 <= k < head.len()
                && atom_has_universal(#[trigger] head[k], v);
        }
    } else {
        let prefix = head.drop_last();
        lemma_head_univ_cat_contains(prefix, v);
        lemma_universal_vars_contains(head.last().terms@, v);
        lemma_concat_contains(head_univ_cat(prefix), universal_vars(head.last().terms@), v);
        if head_has_universal(head, v) {
            let k = choose|k: int| 0 <= k < head.len()
                && atom_has_universal(#[trigger] head[k], v);
            if k < head.len() - 1 {
                assert(prefix[k] == head[k]);
                assert(head_has_universal(prefix, v));
            }
        }
        if head_has_universal(prefix, v) {
            let k = choose|k: int| 0 <= k < prefix.len()
                && atom_has_universal(#[trigger] prefix[k], v);
            assert(head[k] == prefix[k]);
            assert(head_has_universal(head, v));
        }
        if atom_has_universal(head.last(), v) {
            assert(atom_has_universal(head[head.len() - 1], v));
            assert(head_has_universal(head, v));
        }
    }
}

/// `head_exist_cat` holds exactly the existentially quantified head variables.
pub proof fn lemma_head_exist_cat_contains(head: Seq<Atom>, v: Identifier)
    ensures
        head_exist_cat(head).contains(v) <==> head_has_existential(head, v),
    decreases head.len(),
{
    if head.len() == 0 {
        if head_has_existential(head, v) {
            let k = choose|k: int| 0 <= k < head.len()
                && atom_has_existential(#[trigger] head[k], v);
        }
    } else {
        let prefix = head.drop_last();
        lemma_head_exist_cat_contains(prefix, v);
        lemma_existential_vars_contains(head.last().terms@, v);
        lemma_concat_contains(head_exist_cat(prefix), existential_vars(head.last().terms@), v);
        if head_has_existential(head, v) {
            let k = choose|k: int| 0 <= k < head.len()
                && atom_has_existential(#[trigger] head[k], v);
            if k < head.len() - 1 {
                assert(prefix[k] == head[k]);
                assert(head_has_existential(prefix, v));
            }
        }
        if head_has_existential(prefix, v) {
            let k = choose|k: int| 0 <= k < prefix.len()
                && atom_has_existential(#[trigger] prefix[k], v);
            assert(head[k] == prefix[k]);
            assert(head_has_existential(head, v));
        }
        if atom_has_existential(head.last(), v) {
            assert(atom_has_existential(head[head.len() - 1], v));
            assert(head_has_existential(head, v));
        }
    }
}

/// Collect the universally quantified variables of the head atoms.
fn collect_head_universal(head: &Vec<Atom>) -> (r: Vec<Identifier>)
    ensures
        forall|v: Identifier| r@.contains(v) <==> head_has_universal(head@, v),
{
    let mut out: Vec<Identifier> = Vec::new();
    let n = head.len();
    let mut i: usize = 0;
    proof {
        assert(head@.take(0) =~= Seq::<Atom>::empty());
    }
    while i < n
        invariant
            n == head@.len(),
            i <= n,
            out@ == head_univ_cat(head@.take(i as int)),
        decreases n - i,
    {
        proof {
            assert(head@.take(i as int + 1).drop_last() =~= head@.take(i as int));
            assert(head@.take(i as int + 1).last() == head@[i as int]);
        }
        let vars = head[i].universal_variables();
        let ghost base = out@;
        let m = vars.len();
        let mut j: usize = 0;
        proof {
            assert(out@ =~= base + vars@.take(0));
        }
        while j < m
            invariant
                m == vars@.len(),
                j <= m,
                out@ == base + vars@.take(j as int),
            decreases m - j,
        {
            let v = vars[j];
            out.push(v);
            proof {
                assert(out@ =~= base + vars@.take(j as int + 1));
            }
            j = j + 1;
        }
        proof {
            assert(vars@.take(m as int) =~= vars@);
        }
        i = i + 1;
    }
    proof {
        assert(head@.take(n as int) =~= head@);
        assert forall|v: Identifier| out@.contains(v)
            <==> head_has_universal(head@, v) by {
            lemma_head_univ_cat_contains(head@, v);
        }
    }
    out
}

/// Collect the existentially quantified variables of the head atoms.
fn collect_head_existential(head: &Vec<Atom>) -> (r: Vec<Identifier>)
    ensures
        forall|v: Identifier| r@.contains(v) <==> head_has_existential(head@, v),
{
    let mut out: Vec<Identifier> = Vec::new();
    let n = head.len();
    let mut i: usize = 0;
    proof {
        assert(head@.take(0) =~= Seq::<Atom>::empty());
    }
    while i < n
        invariant
            n == head@.len(),
            i <= n,
            out@ == head_exist_cat(head@.take(i as int)),
        decreases n - i,
    {
        proof {
            assert(head@.take(i as int + 1).drop_last() =~= head@.take(i as int));
            assert(head@.take(i as int + 1).last() == head@[i as int]);
        }
        let vars = head[i].existential_variables();
        let ghost base = out@;
        let m = vars.len();
        let mut j: usize = 0;
        proof {
            assert(out@ =~= base + vars@.take(0));
        }
        while j < m
            invariant
                m == vars@.len(),
                j <= m,
                out@ == base + vars@.take(j as int),
            decreases m - j,
        {
            let v = vars[j];
            out.push(v);
            proof {
                assert(out@ =~= base + vars@.take(j as int + 1));
            }
            j = j + 1;
        }
        proof {
            assert(vars@.take(m as int) =~= vars@);
        }
        i = i + 1;
    }
    proof {
        assert(head@.take(n as int) =~= head@);
        assert forall|v: Identifier| out@.contains(v)
            <==> head_has_existential(head@, v) by {
            lemma_head_exist_cat_contains(head@, v);
        }
    }
    out
}

/// A rule: head atoms derived whenever the body literals match.
#[derive(Debug, Eq, PartialEq, Clone)]
pub struct Rule {
    /// The derived atoms.
    pub head: Vec<Atom>,
    /// The condition literals.
    pub body: Vec<Literal>,
}

impl Rule {
    /// Construct a new rule without validation.
    pub fn new(head: Vec<Atom>, body: Vec<Literal>) -> (r: Rule)
        ensures
            r.head@ == head@,
            r.body@ == body@,
    {
        Rule { head, body }
    }

    /// The head atoms of the rule.
    pub fn head(&self) -> (r: &Vec<Atom>)
        ensures
            r@ == self.head@,
    {
        &self.head
    }

    /// The body literals of the rule.
    pub fn body(&self) -> (r: &Vec<Literal>)
        ensures
            r@ == self.body@,
    {
        &self.body
    }

    /// Construct a new rule, validating the constraints on variable
    /// usage: no existential variable in the body, no variable occurring
    /// universally only in negated literals, and no variable quantified
    /// both universally and existentially.
    pub fn new_validated(head: Vec<Atom>, body: Vec<Literal>, parser: &RuleParser)
        -> (r: Result<Rule, ParseError>)
        ensures
            match r {
                Ok(rule) => rule.head@ == head@ && rule.body@ == body@
                    && !body_has_existential(body@)
                    && !body_unsafe_negated(body@)
                    && !mixed_quantifiers(head@, body@),
                Err(e) => match e {
                    ParseError::BodyExistential(_) => body_has_existential(body@),
                    ParseError::UnsafeNegatedVariable(_) => !body_has_existential(body@)
                        && body_unsafe_negated(body@),
                    ParseError::BothQuantifiers(_) => !body_has_existential(body@)
                        && !body_unsafe_negated(body@)
                        && mixed_quantifiers(head@, body@),
                    _ => false,
                },
            },
    {
        // Check whether existential variables occur in the body.
        let n = body.len();
        let mut i: usize = 0;
        while i < n
            invariant
                n == body@.len(),
                i <= n,
                forall|k: int| 0 <= k < i
                    ==> existential_vars(
                        spec_literal_atom(#[trigger] body@[k]).terms@).len() == 0,
            decreases n - i,
        {
            let ev = body[i].existential_variables();
            if ev.len() > 0 {
                let name = parser.resolve_term_or_unknown(ev[0].0);
                return Err(ParseError::BodyExistential(name));
            }
            i = i + 1;
        }
        proof {
            assert(!body_has_existential(body@));
        }

        // Check whether some variable occurs only in negative literals.
        let negative_vars = collect_body_universal(&body, true);
        let positive_vars = collect_body_universal(&body, false);
        let nn = negative_vars.len();
        let mut i2: usize = 0;
        while i2 < nn
            invariant
                nn == negative_vars@.len(),
                i2 <= nn,
                !body_has_existential(body@),
                forall|k: int| 0 <= k < i2
                    ==> positive_vars@.contains(#[trigger] negative_vars@[k]),
                forall|v: Identifier| negative_vars@.contains(v)
                    <==> body_has_universal(body@, v, true),
                forall|v: Identifier| positive_vars@.contains(v)
                    <==> body_has_universal(body@, v, false),
            decreases nn - i2,
        {
            let v = negative_vars[i2];
            if !contains_id(&positive_vars, v) {
                proof {
                    assert(negative_vars@.contains(v));
                    assert(body_has_universal(body@, v, true));
                    assert(!body_has_universal(body@, v, false));
                    assert(body_unsafe_negated(body@));
                }
                let name = parser.resolve_term_or_unknown(v.0);
                return Err(ParseError::UnsafeNegatedVariable(name));
            }
            i2 = i2 + 1;
        }
        proof {
            assert forall|v: Identifier|
                !(body_has_universal(body@, v, true)
                    && !body_has_universal(body@, v, false)) by {
                if body_has_universal(body@, v, true) {
                    assert(negative_vars@.contains(v));
                    let k = choose|k: int|
                        0 <= k < negative_vars@.len() && negative_vars@[k] == v;
                    assert(positive_vars@.contains(negative_vars@[k]));
                }
            }
            assert(!body_unsafe_negated(body@));
        }

        // Check whether a variable occurs with both quantifications.
        let head_exist = collect_head_existential(&head);
        let head_univ = collect_head_universal(&head);
        let ne = head_exist.len();
        let mut i3: usize = 0;
        while i3 < ne
            invariant
                ne == head_exist@.len(),
                i3 <= ne,
                !body_has_existential(body@),
                !body_unsafe_negated(body@),
                forall|k: int| 0 <= k < i3
                    ==> !negative_vars@.contains(#[trigger] head_exist@[k])
                        && !positive_vars@.contains(#[trigger] head_exist@[k])
                        && !head_univ@.contains(#[trigger] head_exist@[k]),
                forall|v: Identifier| negative_vars@.contains(v)
                    <==> body_has_universal(body@, v, true),
                forall|v: Identifier| positive_vars@.contains(v)
                    <==> body_has_universal(body@, v, false),
                forall|v: Identifier| head_exist@.contains(v)
                    <==> head_has_existential(head@, v),
                forall|v: Identifier| head_univ@.contains(v)
                    <==> head_has_universal(head@, v),
            decreases ne - i3,
        {
            let v = head_exist[i3];
            let in_universal = contains_id(&negative_vars, v) || contains_id(&positive_vars, v)
                || contains_id(&head_univ, v);
            if in_universal {
                proof {
                    assert(head_exist@.contains(v));
                    assert(head_has_existential(head@, v));
                    assert(negative_vars@.contains(v) || positive_vars@.contains(v)
                        || head_univ@.contains(v));
                    assert(body_has_universal(body@, v, true)
                        || body_has_universal(body@, v, false)
                        || head_has_universal(head@, v));
                    assert(mixed_quantifiers(head@, body@));
                }
                let name = parser.resolve_term_or_unknown(v.0);
                return Err(ParseError::BothQuantifiers(name));
            }
            i3 = i3 + 1;
        }
        proof {
            assert forall|v: Identifier| !(#[trigger] head_has_existential(head@, v)
                && (body_has_universal(body@, v, true)
                    || body_has_universal(body@, v, false)
                    || head_has_universal(head@, v))) by {
                if head_has_existential(head@, v) {
                    assert(head_exist@.contains(v));
                    let k = choose|k: int|
                        0 <= k < head_exist@.len() && head_exist@[k] == v;
                    assert(!negative_vars@.contains(head_exist@[k])
                        && !positive_vars@.contains(head_exist@[k])
                        && !head_univ@.contains(head_exist@[k]));
                }
            }
            assert(!mixed_quantifiers(head@, body@));
        }

        Ok(Rule { head, body })
    }
}

/// A (ground) fact.
#[derive(Debug, Eq, PartialEq, Clone)]
pub struct Fact(pub Atom);

/// A statement that can occur in a program.
#[derive(Debug, Eq, PartialEq, Clone)]
pub enum Statement {
    /// A fact.
    Fact(Fact),
    /// A rule.
    Rule(Rule),
}

/// A directive that can occur in a program.
#[derive(Debug, Clone)]
pub enum Directive {
    /// Import another source file.
    Import(String),
    /// Import another source file with a relative path.
    ImportRelative(String),
}

/// A SPARQL query data source.
#[derive(Debug, Clone)]
pub struct SparqlQuery {
    /// The SPARQL endpoint; should be an IRI.
    endpoint: String,
    /// The projection clause: the comma-separated variables to select.
    projection: String,
    /// The actual query.
    query: String,
}

impl SparqlQuery {
    /// The endpoint, as given at construction.
    pub closed spec fn spec_endpoint(&self) -> Seq<char> {
        self.endpoint@
    }

    /// The projection clause, as given at construction.
    pub closed spec fn spec_projection(&self) -> Seq<char> {
        self.projection@
    }

    /// The query, as given at construction.
    pub closed spec fn spec_query(&self) -> Seq<char> {
        self.query@
    }

    /// Construct a new SPARQL query.
    pub fn new(endpoint: String, projection: String, query: String) -> (r: SparqlQuery)
        ensures
            r.spec_endpoint() == endpoint@,
            r.spec_projection() == projection@,
            r.spec_query() == query@,
    {
        SparqlQuery { endpoint, projection, query }
    }

    /// The endpoint.
    pub fn endpoint(&self) -> (r: &str)
        ensures
            r@ == self.spec_endpoint(),
    {
        self.endpoint.as_str()
    }

    /// The projection clause.
    pub fn projection(&self) -> (r: &str)
        ensures
            r@ == self.spec_projection(),
    {
        self.projection.as_str()
    }

    /// The query part.
    pub fn query(&self) -> (r: &str)
        ensures
            r@ == self.spec_query(),
    {
        self.query.as_str()
    }

    /// The full SELECT query text.
    pub fn format_query(&self) -> (r: String)
        ensures
            r@ == "SELECT "@ + self.spec_projection() + " WHERE { "@ + self.spec_query()
                + " }"@,
    {
        let mut s = String::from_str("SELECT ");
        s.append(self.projection.as_str());
        s.append(" WHERE { ");
        s.append(self.query.as_str());
        s.append(" }");
        s
    }
}

/// An external data source.
#[derive(Debug, Clone)]
pub enum DataSource {
    /// A CSV file data source with the given path.
    CsvFile(String),
    /// An RDF file data source with the given path.
    RdfFile(String),
    /// A SPARQL query data source.
    SparqlQuery(SparqlQuery),
}

impl DataSource {
    /// A CSV file data source from a path.
    pub fn csv_file(path: &str) -> (r: Result<DataSource, ParseError>)
        ensures
            match r {
                Ok(ds) => ds matches DataSource::CsvFile(p) && p@ == path@,
                Err(_) => false,
            },
    {
        Ok(DataSource::CsvFile(path.to_owned()))
    }

    /// An RDF file data source from a path.
    pub fn rdf_file(path: &str) -> (r: Result<DataSource, ParseError>)
        ensures
            match r {
                Ok(ds) => ds matches DataSource::RdfFile(p) && p@ == path@,
                Err(_) => false,
            },
    {
        Ok(DataSource::RdfFile(path.to_owned()))
    }

    /// A SPARQL query data source from a query.
    pub fn sparql_query(query: SparqlQuery) -> (r: Result<DataSource, ParseError>)
        ensures
            match r {
                Ok(ds) => ds matches DataSource::SparqlQuery(q) && q == query,
                Err(_) => false,
            },
    {
        Ok(DataSource::SparqlQuery(query))
    }
}

/// The number of comma-separated fields of a projection clause: one
/// more than the number of commas.
pub open spec fn projection_arity(s: Seq<char>) -> int
    decreases s.len(),
{
    if s.len() == 0 {
        1
    } else if s.last() == ',' {
        projection_arity(s.drop_last()) + 1
    } else {
        projection_arity(s.drop_last())
    }
}

/// Count the comma-separated fields of a projection clause.
pub fn count_projection_vars(s: &str) -> (r: usize)
    requires
        s@.len() < usize::MAX,
    ensures
        r == projection_arity(s@),
{
    let n = s.unicode_len();
    let mut count: usize = 1;
    let mut i: usize = 0;
    proof {
        assert(s@.take(0) =~= Seq::<char>::empty());
    }
    while i < n
        invariant
            n == s@.len(),
            n < usize::MAX,
            i <= n,
            count == projection_arity(s@.take(i as int)),
            count <= i + 1,
        decreases n - i,
    {
        proof {
            assert(s@.take(i as int + 1).drop_last() =~= s@.take(i as int));
            assert(s@.take(i as int + 1).last() == s@[i as int]);
        }
        if s.get_char(i) == ',' {
            count = count + 1;
        }
        i = i + 1;
    }
    proof {
        assert(s@.take(n as int) =~= s@);
    }
    count
}

/// A data source declaration: a predicate, an arity, and the source.
#[derive(Debug, Clone)]
pub struct DataSourceDeclaration {
    predicate: Identifier,
    arity: usize,
    source: DataSource,
}

impl DataSourceDeclaration {
    /// The declared predicate.
    pub closed spec fn spec_predicate(&self) -> Identifier {
        self.predicate
    }

    /// The declared arity.
    pub closed spec fn spec_arity(&self) -> usize {
        self.arity
    }

    /// The declared source.
    pub closed spec fn spec_source(&self) -> DataSource {
        self.source
    }

    /// Construct a new data source declaration without validation.
    pub fn new(predicate: Identifier, arity: usize, source: DataSource)
        -> (r: DataSourceDeclaration)
        ensures
            r.spec_predicate() == predicate,
            r.spec_arity() == arity,
            r.spec_source() == source,
    {
        DataSourceDeclaration { predicate, arity, source }
    }

    /// The declared predicate.
    pub fn predicate(&self) -> (r: Identifier)
        ensures
            r == self.spec_predicate(),
    {
        self.predicate
    }

    /// The declared arity.
    pub fn arity(&self) -> (r: usize)
        ensures
            r == self.spec_arity(),
    {
        self.arity
    }

    /// The declared source.
    pub fn source(&self) -> (r: &DataSource)
        ensures
            r == self.spec_source(),
    {
        &self.source
    }

    /// Construct a new data source declaration, validating the arity:
    /// an RDF source must have arity three, and a SPARQL source's
    /// projection must have as many fields as the declared arity.
    pub fn new_validated(
        predicate: Identifier,
        arity: usize,
        source: DataSource,
        parser: &RuleParser,
    ) -> (r: Result<DataSourceDeclaration, ParseError>)
        requires
            forall|q: SparqlQuery| source == DataSource::SparqlQuery(q)
                ==> q.spec_projection().len() < usize::MAX,
        ensures
            match r {
                Ok(d) => d.spec_predicate() == predicate && d.spec_arity() == arity
                    && d.spec_source() == source
                    && (source is RdfFile ==> arity == 3)
                    && (forall|q: SparqlQuery| source == DataSource::SparqlQuery(q)
                        ==> projection_arity(q.spec_projection()) == arity),
                Err(e) => match e {
                    ParseError::RdfSourceInvalidArity(_, _, a) => source is RdfFile
                        && arity != 3 && a == arity,
                    ParseError::SparqlSourceInvalidArity(_, vars, a) => a == arity
                        && exists|q: SparqlQuery| source == DataSource::SparqlQuery(q)
                            && projection_arity(q.spec_projection()) == vars
                            && vars != arity,
                    _ => false,
                },
            },
    {
        match &source {
            DataSource::CsvFile(_) => (),
            DataSource::RdfFile(path) => {
                if arity != 3 {
                    let name = parser.resolve_term_or_unknown(predicate.0);
                    let path_text = crate::dictionary::clone_string(path);
                    return Err(ParseError::RdfSourceInvalidArity(name, path_text, arity));
                }
            },
            DataSource::SparqlQuery(query) => {
                let variables = count_projection_vars(query.projection());
                if variables != arity {
                    let name = parser.resolve_term_or_unknown(predicate.0);
                    return Err(ParseError::SparqlSourceInvalidArity(name, variables, arity));
                }
            },
        }
        Ok(DataSourceDeclaration { predicate, arity, source })
    }
}

/// A full program: an optional base IRI, prefixes, data sources, rules
/// and facts.
#[derive(Debug)]
pub struct Program {
    base: Option<usize>,
    prefixes: Vec<(String, usize)>,
    sources: Vec<DataSourceDeclaration>,
    /// The program's rules.
    pub rules: Vec<Rule>,
    facts: Vec<Fact>,
}

impl Program {
    /// The declared prefixes, oldest first.
    pub closed spec fn spec_prefixes(&self) -> Seq<(Seq<char>, usize)> {
        Seq::new(self.prefixes@.len(), |i: int| (self.prefixes@[i].0@, self.prefixes@[i].1))
    }

    /// The declared base handle, if one was set.
    pub closed spec fn spec_base(&self) -> Option<usize> {
        self.base
    }

    /// The declared data sources.
    pub closed spec fn spec_sources(&self) -> Seq<DataSourceDeclaration> {
        self.sources@
    }

    /// The program's facts.
    pub closed spec fn spec_facts(&self) -> Seq<Fact> {
        self.facts@
    }

    /// The program's rules.
    pub closed spec fn spec_rules(&self) -> Seq<Rule> {
        self.rules@
    }

    /// Construct a new program.
    pub fn new(
        base: Option<usize>,
        prefixes: Vec<(String, usize)>,
        sources: Vec<DataSourceDeclaration>,
        rules: Vec<Rule>,
        facts: Vec<Fact>,
    ) -> (r: Program)
        ensures
            r.spec_base() == base,
            r.spec_prefixes().len() == prefixes@.len(),
            forall|i: int| 0 <= i < prefixes@.len()
                ==> #[trigger] r.spec_prefixes()[i]
                    == (prefixes@[i].0@, prefixes@[i].1),
            r.spec_sources() == sources@,
            r.spec_rules() == rules@,
            r.spec_facts() == facts@,
    {
        Program { base, prefixes, sources, rules, facts }
    }

    /// The base handle, if set.
    pub fn base(&self) -> (r: Option<usize>)
        ensures
            r == self.spec_base(),
    {
        self.base
    }

    /// The rules of the program.
    pub fn rules(&self) -> (r: &Vec<Rule>)
        ensures
            r@ == self.spec_rules(),
    {
        &self.rules
    }

    /// The facts of the program.
    pub fn facts(&self) -> (r: &Vec<Fact>)
        ensures
            r@ == self.spec_facts(),
    {
        &self.facts
    }

    /// The declared prefixes.
    pub fn prefixes(&self) -> (r: &Vec<(String, usize)>)
        ensures
            r@.len() == self.spec_prefixes().len(),
            forall|i: int| 0 <= i < r@.len()
                ==> #[trigger] self.spec_prefixes()[i] == (r@[i].0@, r@[i].1),
    {
        &self.prefixes
    }

    /// The declared data sources.
    pub fn sources(&self) -> (r: &Vec<DataSourceDeclaration>)
        ensures
            r@ == self.spec_sources(),
    {
        &self.sources
    }

    /// Look up a prefix: the handle of its earliest declaration.
    pub fn resolve_prefix(&self, tag: &str) -> (r: Option<usize>)
        ensures
            match r {
                Some(h) => exists|i: int| 0 <= i < self.spec_prefixes().len()
                    && #[trigger] self.spec_prefixes()[i] == (tag@, h),
                None => forall|i: int| 0 <= i < self.spec_prefixes().len()
                    ==> (#[trigger] self.spec_prefixes()[i]).0 != tag@,
            },
    {
        let n = self.prefixes.len();
        let mut i: usize = 0;
        while i < n
            invariant
                n == self.prefixes@.len(),
                i <= n,
                forall|k: int| 0 <= k < i
                    ==> (#[trigger] self.spec_prefixes()[k]).0 != tag@,
            decreases n - i,
        {
            if crate::parser::str_eq(self.prefixes[i].0.as_str(), tag) {
                let h = self.prefixes[i].1;
                proof {
                    assert(self.spec_prefixes()[i as int] == (tag@, h));
                }
                return Some(h);
            }
            i = i + 1;
        }
        None
    }
}

/// The character of one decimal digit.
pub open spec fn spec_dec_digit(d: int) -> char {
    if d == 0 { '0' }
    else if d == 1 { '1' }
    else if d == 2 { '2' }
    else if d == 3 { '3' }
    else if d == 4 { '4' }
    else if d == 5 { '5' }
    else if d == 6 { '6' }
    else if d == 7 { '7' }
    else if d == 8 { '8' }
    else { '9' }
}

/// The decimal digits of a number, most significant first.
pub open spec fn spec_dec_string(n: int) -> Seq<char>
    decreases n when n >= 0
{
    if n < 10 {
        seq![spec_dec_digit(n)]
    } else {
        spec_dec_string(n / 10).push(spec_dec_digit(n % 10))
    }
}

/// One decimal digit as text.
fn digit_str(d: usize) -> (r: &'static str)
    requires
        d < 10,
    ensures
        r@ == seq![spec_dec_digit(d as int)],
{
    let r: &'static str = match d {
        0 => "0",
        1 => "1",
        2 => "2",
        3 => "3",
        4 => "4",
        5 => "5",
        6 => "6",
        7 => "7",
        8 => "8",
        _ => "9",
    };
    proof {
        reveal_strlit("0");
        reveal_strlit("1");
        reveal_strlit("2");
        reveal_strlit("3");
        reveal_strlit("4");
        reveal_strlit("5");
        reveal_strlit("6");
        reveal_strlit("7");
        reveal_strlit("8");
        reveal_strlit("9");
        assert(r@ =~= seq![spec_dec_digit(d as int)]);
    }
    r
}

/// A number as decimal text.
pub fn usize_to_string(n: usize) -> (r: String)
    ensures
        r@ == spec_dec_string(n as int),
    decreases n,
{
    if n < 10 {
        String::from_str(digit_str(n))
    } else {
        let mut s = usize_to_string(n / 10);
        s.append(digit_str(n % 10));
        s
    }
}

/// A pretty-printable identifier: the resolved name, or a placeholder
/// naming the unresolved handle.
#[derive(Debug)]
pub struct PrintableIdentifier {
    resolved: Option<String>,
    ident: usize,
}

impl PrintableIdentifier {
    /// The resolved name, if the dictionary knew the handle.
    pub closed spec fn spec_resolved(&self) -> Option<Seq<char>> {
        match self.resolved {
            Some(ref s) => Some(s@),
            None => None,
        }
    }

    /// The handle this identifier wraps.
    pub closed spec fn spec_ident(&self) -> usize {
        self.ident
    }

    /// The text: the resolved name, or the placeholder with the handle.
    pub fn text(&self) -> (r: String)
        ensures
            r@ == match self.spec_resolved() {
                Some(name) => name,
                None => "<unresolved identifier "@
                    + spec_dec_string(self.spec_ident() as int) + ">"@,
            },
    {
        match &self.resolved {
            Some(name) => crate::dictionary::clone_string(name),
            None => {
                let mut out = String::from_str("<unresolved identifier ");
                out.append(usize_to_string(self.ident).as_str());
                out.append(">");
                out
            },
        }
    }
}

impl Identifier {
    /// Make the identifier pretty-printable using the given dictionary.
    pub fn format(&self, dictionary: &crate::dictionary::Dictionary)
        -> (r: PrintableIdentifier)
        ensures
            r.spec_ident() == self.0,
            r.spec_resolved() == (if self.0 < dictionary@.len() {
                Some(dictionary@[self.0 as int])
            } else {
                None::<Seq<char>>
            }),
    {
        PrintableIdentifier { resolved: dictionary.entry(self.0), ident: self.0 }
    }
}

} // verus!
