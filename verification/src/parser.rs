//! A parser for rulewerk-style rules: directives, facts, and the
//! tokens they are made of, written directly over character sequences.

use vstd::prelude::*;
use crate::dictionary::Dictionary;

verus! {

/// What the parser can reject, with the offending name where one exists.
#[derive(Debug, Clone, PartialEq, Eq)]
pub enum ParseError {
    /// An existentially quantified variable occurs in a rule body.
    BodyExistential(String),
    /// A variable occurs only in negative body literals.
    UnsafeNegatedVariable(String),
    /// A variable is quantified both universally and existentially.
    BothQuantifiers(String),
    /// An RDF data source was declared with an arity other than three.
    RdfSourceInvalidArity(String, String, usize),
    /// A SPARQL data source's projection does not match its arity.
    SparqlSourceInvalidArity(String, usize, usize),
}

/// The main parser: a dictionary for terms, the base IRI if one was
/// declared, and the declared prefixes.
pub struct RuleParser {
    /// The dictionary mapping term names to their handles.
    names: Dictionary,
    /// The base IRI, if set.
    base: Option<String>,
    /// Declared prefixes and the IRIs they stand for.
    prefixes: Vec<(String, String)>,
}

impl RuleParser {
    /// The interned term names, in handle order.
    pub closed spec fn spec_names(&self) -> Seq<Seq<char>> {
        self.names@
    }

    /// The declared base IRI.
    pub closed spec fn spec_base(&self) -> Option<Seq<char>> {
        match self.base {
            Some(ref b) => Some(b@),
            None => None,
        }
    }

    /// The declared prefixes, oldest first.
    pub closed spec fn spec_prefixes(&self) -> Seq<(Seq<char>, Seq<char>)> {
        Seq::new(self.prefixes@.len(), |i: int| (self.prefixes@[i].0@, self.prefixes@[i].1@))
    }

    /// The dictionary never holds a string twice.
    pub closed spec fn wf(&self) -> bool {
        self.names.wf()
    }

    /// A fresh parser with no base, no prefixes and no interned names.
    pub fn new() -> (r: RuleParser)
        ensures
            r.wf(),
            r.spec_base() is None,
            r.spec_prefixes() == Seq::<(Seq<char>, Seq<char>)>::empty(),
            r.spec_names() == Seq::<Seq<char>>::empty(),
    {
        let r = RuleParser { names: Dictionary::new(), base: None, prefixes: Vec::new() };
        proof {
            assert(r.spec_prefixes() =~= Seq::<(Seq<char>, Seq<char>)>::empty());
        }
        r
    }

    /// The declared base, if set.
    pub fn base(&self) -> (r: Option<String>)
        ensures
            match r {
                Some(b) => self.spec_base() == Some(b@),
                None => self.spec_base() is None,
            },
    {
        match self.base {
            Some(ref b) => Some(crate::dictionary::clone_string(b)),
            None => None,
        }
    }

    /// Expand a prefix: the IRI of its earliest declaration.
    pub fn resolve_prefix(&self, prefix: &str) -> (r: Option<String>)
        ensures
            match r {
                Some(iri) => exists|i: int|
                    0 <= i < self.spec_prefixes().len()
                        && #[trigger] self.spec_prefixes()[i] == (prefix@, iri@)
                        && forall|k: int| 0 <= k < i
                            ==> (#[trigger] self.spec_prefixes()[k]).0 != prefix@,
                None => forall|i: int| 0 <= i < self.spec_prefixes().len()
                    ==> (#[trigger] self.spec_prefixes()[i]).0 != prefix@,
            },
    {
        let n = self.prefixes.len();
        let mut i: usize = 0;
        while i < n
            invariant
                n == self.prefixes@.len(),
                i <= n,
                forall|k: int| 0 <= k < i
                    ==> (#[trigger] self.spec_prefixes()[k]).0 != prefix@,
            decreases n - i,
        {
            if str_eq(self.prefixes[i].0.as_str(), prefix) {
                proof {
                    assert(self.spec_prefixes()[i as int].0 == prefix@);
                }
                let iri = crate::dictionary::clone_string(&self.prefixes[i].1);
                proof {
                    assert(self.spec_prefixes()[i as int] == (prefix@, iri@));
                }
                return Some(iri);
            }
            i = i + 1;
        }
        None
    }

    /// Expand a prefixed name: the name splits at its first `:` into a
    /// prefix and a suffix, and the expansion is the prefix's declared
    /// IRI followed by the suffix.  Nothing comes back exactly when the
    /// name holds no `:` or the prefix is not declared.
    pub fn resolve_prefixed_name(&self, name: &str) -> (r: Option<String>)
        requires
            name.is_ascii(),
        ensures
            ({
                let k = spec_find_char(name@, 0, ':');
                &&& (r is Some <==> k < name@.len()
                    && exists|i: int| 0 <= i < self.spec_prefixes().len()
                        && (#[trigger] self.spec_prefixes()[i]).0 == name@.take(k))
                &&& match r {
                    Some(out) => exists|i: int|
                        0 <= i < self.spec_prefixes().len()
                            && (#[trigger] self.spec_prefixes()[i]).0 == name@.take(k)
                            && self.spec_prefixes()[i].1 + name@.skip(k + 1) == out@
                            && forall|x: int| 0 <= x < i
                                ==> (#[trigger] self.spec_prefixes()[x]).0 != name@.take(k),
                    None => true,
                }
            }),
    {
        let n = name.unicode_len();
        let mut k: usize = 0;
        while k < n
            invariant
                n == name@.len(),
                k <= n,
                name.is_ascii(),
                spec_find_char(name@, 0, ':') == spec_find_char(name@, k as int, ':'),
            decreases n - k,
        {
            if name.get_char(k) == ':' {
                proof {
                    assert(spec_find_char(name@, k as int, ':') == k);
                }
                let prefix = name.substring_char(0, k);
                let suffix = name.substring_char(k + 1, n);
                proof {
                    assert(prefix@ =~= name@.take(k as int));
                    assert(suffix@ =~= name@.skip(k + 1));
                }
                match self.resolve_prefix(prefix) {
                    Some(iri) => {
                        let expanded = iri.concat(suffix);
                        proof {
                            let i = choose|i: int|
                                0 <= i < self.spec_prefixes().len()
                                    && #[trigger] self.spec_prefixes()[i] == (prefix@, iri@)
                                    && forall|x: int| 0 <= x < i
                                        ==> (#[trigger] self.spec_prefixes()[x]).0
                                            != prefix@;
                            assert(self.spec_prefixes()[i].0 == name@.take(k as int));
                            assert(expanded@ == self.spec_prefixes()[i].1
                                + name@.skip(k as int + 1));
                        }
                        return Some(expanded);
                    },
                    None => {
                        return None;
                    },
                }
            }
            k = k + 1;
        }
        proof {
            assert(spec_find_char(name@, n as int, ':') == n);
        }
        None
    }

    /// Intern a term name; equal names receive equal handles.
    pub fn intern_term(&mut self, term: String) -> (r: usize)
        requires
            old(self).wf(),
        ensures
            final(self).wf(),
            final(self).spec_base() == old(self).spec_base(),
            final(self).spec_prefixes() == old(self).spec_prefixes(),
            r < final(self).spec_names().len(),
            final(self).spec_names()[r as int] == term@,
            old(self).spec_names().contains(term@)
                ==> final(self).spec_names() == old(self).spec_names(),
            !old(self).spec_names().contains(term@)
                ==> final(self).spec_names() == old(self).spec_names().push(term@),
    {
        self.names.add(term)
    }

    /// The name a handle stands for, if it is known.
    pub fn resolve_term(&self, term: usize) -> (r: Option<String>)
        ensures
            match r {
                Some(s) => term < self.spec_names().len()
                    && s@ == self.spec_names()[term as int],
                None => term >= self.spec_names().len(),
            },
    {
        self.names.entry(term)
    }

    /// The name a handle stands for, or a placeholder for an unknown one.
    pub fn resolve_term_or_unknown(&self, term: usize) -> (r: String)
        ensures
            term < self.spec_names().len() ==> r@ == self.spec_names()[term as int],
    {
        match self.resolve_term(term) {
            Some(s) => s,
            None => String::from_str("<unknown>"),
        }
    }
}

/// Whether two string slices hold the same characters.
pub fn str_eq(a: &str, b: &str) -> (r: bool)
    ensures
        r == (a@ == b@),
{
    let sa = a.to_owned();
    let sb = b.to_owned();
    sa.eq(&sb)
}

// ------------------------------------------------------------------
// Character classes and scanning
// ------------------------------------------------------------------

/// A whitespace character.
pub open spec fn spec_is_ws(c: char) -> bool {
    c == ' ' || c == '\t' || c == '\r' || c == '\n'
}

/// An ASCII letter.
pub open spec fn spec_is_alpha(c: char) -> bool {
    ('a' <= c && c <= 'z') || ('A' <= c && c <= 'Z')
}

/// An ASCII letter or digit.
pub open spec fn spec_is_alnum(c: char) -> bool {
    spec_is_alpha(c) || ('0' <= c && c <= '9')
}

/// The first position at or after `i` that is not whitespace.
pub open spec fn spec_skip_ws(s: Seq<char>, i: int) -> int
    decreases s.len() - i when 0 <= i <= s.len()
{
    if i >= s.len() || !spec_is_ws(s[i]) {
        i
    } else {
        spec_skip_ws(s, i + 1)
    }
}

/// The first position at or after `i` that is not a letter or digit.
pub open spec fn spec_alnum_end(s: Seq<char>, i: int) -> int
    decreases s.len() - i when 0 <= i <= s.len()
{
    if i >= s.len() || !spec_is_alnum(s[i]) {
        i
    } else {
        spec_alnum_end(s, i + 1)
    }
}

/// The first position at or after `i` holding `c`, or the length.
pub open spec fn spec_find_char(s: Seq<char>, i: int, c: char) -> int
    decreases s.len() - i when 0 <= i <= s.len()
{
    if i >= s.len() {
        s.len() as int
    } else if s[i] == c {
        i
    } else {
        spec_find_char(s, i + 1, c)
    }
}

/// `spec_skip_ws` stays within bounds.
pub proof fn lemma_skip_ws_bounds(s: Seq<char>, i: int)
    requires
        0 <= i <= s.len(),
    ensures
        i <= spec_skip_ws(s, i) <= s.len(),
    decreases s.len() - i,
{
    if i < s.len() && spec_is_ws(s[i]) {
        lemma_skip_ws_bounds(s, i + 1);
    }
}

/// `spec_alnum_end` stays within bounds.
pub proof fn lemma_alnum_end_bounds(s: Seq<char>, i: int)
    requires
        0 <= i <= s.len(),
    ensures
        i <= spec_alnum_end(s, i) <= s.len(),
    decreases s.len() - i,
{
    if i < s.len() && spec_is_alnum(s[i]) {
        lemma_alnum_end_bounds(s, i + 1);
    }
}

/// `spec_find_char` stays within bounds.
pub proof fn lemma_find_char_bounds(s: Seq<char>, i: int, c: char)
    requires
        0 <= i <= s.len(),
    ensures
        i <= spec_find_char(s, i, c) <= s.len(),
    decreases s.len() - i,
{
    if i < s.len() && s[i] != c {
        lemma_find_char_bounds(s, i + 1, c);
    }
}

/// Skip whitespace from position `i`.
pub fn skip_ws(s: &str, i: usize) -> (r: usize)
    requires
        i <= s@.len(),
    ensures
        r == spec_skip_ws(s@, i as int),
{
    let n = s.unicode_len();
    let mut j = i;
    while j < n
        invariant
            n == s@.len(),
            i <= j <= n,
            spec_skip_ws(s@, i as int) == spec_skip_ws(s@, j as int),
        decreases n - j,
    {
        let c = s.get_char(j);
        if !(c == ' ' || c == '\t' || c == '\r' || c == '\n') {
            return j;
        }
        j = j + 1;
    }
    j
}

/// The end of the letter-and-digit run starting at `i`.
pub fn alnum_end(s: &str, i: usize) -> (r: usize)
    requires
        i <= s@.len(),
    ensures
        r == spec_alnum_end(s@, i as int),
{
    let n = s.unicode_len();
    let mut j = i;
    while j < n
        invariant
            n == s@.len(),
            i <= j <= n,
            spec_alnum_end(s@, i as int) == spec_alnum_end(s@, j as int),
        decreases n - j,
    {
        let c = s.get_char(j);
        if !(('a' <= c && c <= 'z') || ('A' <= c && c <= 'Z') || ('0' <= c && c <= '9')) {
            return j;
        }
        j = j + 1;
    }
    j
}

/// Find `c` at or after position `i`.
pub fn find_char(s: &str, i: usize, c: char) -> (r: usize)
    requires
        i <= s@.len(),
    ensures
        r == spec_find_char(s@, i as int, c),
{
    let n = s.unicode_len();
    let mut j = i;
    while j < n
        invariant
            n == s@.len(),
            i <= j <= n,
            spec_find_char(s@, i as int, c) == spec_find_char(s@, j as int, c),
        decreases n - j,
    {
        if s.get_char(j) == c {
            return j;
        }
        j = j + 1;
    }
    j
}

/// Take the substring `[from, to)` as an owned string.
pub fn take_range(s: &str, from: usize, to: usize) -> (r: String)
    requires
        from <= to,
        to <= s@.len(),
    ensures
        r@ == s@.subrange(from as int, to as int),
{
    s.substring_char(from, to).to_owned()
}

// ------------------------------------------------------------------
// Token parsers
// ------------------------------------------------------------------

/// An IRI in angle brackets stands at `i`: `<`, anything but `>`, `>`.
pub open spec fn spec_iriref_at(s: Seq<char>, i: int) -> bool {
    &&& 0 <= i < s.len()
    &&& s[i] == '<'
    &&& spec_find_char(s, i + 1, '>') < s.len()
}

/// Parse an IRI in angle brackets: on success the position after the
/// closing bracket and the text between the brackets.
pub fn parse_iriref(s: &str, i: usize) -> (r: Option<(usize, String)>)
    requires
        i <= s@.len(),
    ensures
        match r {
            Some((j, iri)) => spec_iriref_at(s@, i as int)
                && j == spec_find_char(s@, i as int + 1, '>') + 1
                && iri@ == s@.subrange(i as int + 1, spec_find_char(s@, i as int + 1, '>')),
            None => !spec_iriref_at(s@, i as int),
        },
{
    let n = s.unicode_len();
    if i >= n || s.get_char(i) != '<' {
        return None;
    }
    proof {
        lemma_find_char_bounds(s@, i as int + 1, '>');
    }
    let e = find_char(s, i + 1, '>');
    if e >= n {
        return None;
    }
    let iri = take_range(s, i + 1, e);
    Some((e + 1, iri))
}

/// An RDF literal as parsed, before its parts are interned.
#[derive(Debug, Clone, PartialEq, Eq)]
pub enum ParsedRdfLiteral {
    /// A language-tagged string.
    LanguageString {
        /// The literal value.
        value: String,
        /// The language tag.
        tag: String,
    },
    /// A literal with a datatype IRI.
    DatatypeValue {
        /// The literal value.
        value: String,
        /// The datatype IRI.
        datatype: String,
    },
}

/// The scheme of an IRI ends at the first character that is not a
/// letter, digit, `+`, `-` or `.`.
pub open spec fn spec_is_scheme_char(c: char) -> bool {
    spec_is_alnum(c) || c == '+' || c == '-' || c == '.'
}

/// The first position at or after `i` that is not a scheme character.
pub open spec fn spec_scheme_end(s: Seq<char>, i: int) -> int
    decreases s.len() - i when 0 <= i <= s.len()
{
    if i >= s.len() || !spec_is_scheme_char(s[i]) {
        i
    } else {
        spec_scheme_end(s, i + 1)
    }
}

/// The string starts with an IRI scheme: a letter, scheme characters,
/// and a colon.
pub open spec fn spec_is_absolute_iri(s: Seq<char>) -> bool {
    &&& s.len() > 0
    &&& spec_is_alpha(s[0])
    &&& spec_scheme_end(s, 1) < s.len()
    &&& s[spec_scheme_end(s, 1)] == ':'
}

/// Whether the IRI has a scheme, making it absolute.
pub fn is_absolute(iri: &str) -> (r: bool)
    ensures
        r == spec_is_absolute_iri(iri@),
{
    let n = iri.unicode_len();
    if n == 0 {
        return false;
    }
    let c0 = iri.get_char(0);
    if !(('a' <= c0 && c0 <= 'z') || ('A' <= c0 && c0 <= 'Z')) {
        return false;
    }
    let mut j: usize = 1;
    while j < n
        invariant
            n == iri@.len(),
            n >= 1,
            spec_is_alpha(iri@[0]),
            1 <= j <= n,
            spec_scheme_end(iri@, 1) == spec_scheme_end(iri@, j as int),
        decreases n - j,
    {
        let c = iri.get_char(j);
        if c == ':' {
            proof {
                assert(!spec_is_scheme_char(':'));
            }
            return true;
        }
        if !(('a' <= c && c <= 'z') || ('A' <= c && c <= 'Z') || ('0' <= c && c <= '9')
            || c == '+' || c == '-' || c == '.') {
            proof {
                lemma_scheme_end_stuck(iri@, j as int);
            }
            return false;
        }
        j = j + 1;
    }
    false
}

/// A non-scheme character that is no colon refutes absoluteness.
proof fn lemma_scheme_end_stuck(s: Seq<char>, j: int)
    requires
        0 <= j < s.len(),
        !spec_is_scheme_char(s[j]),
        s[j] != ':',
        spec_scheme_end(s, 1) == spec_scheme_end(s, j),
    ensures
        !spec_is_absolute_iri(s),
{
}

/// A well-formed base directive: the `@base` keyword, whitespace, an
/// IRI in angle brackets, and the closing dot.
pub open spec fn spec_base_directive(s: Seq<char>) -> bool {
    let w = spec_skip_ws(s, 5);
    let wd = spec_skip_ws(s, spec_find_char(s, w + 1, '>') + 1);
    &&& s.len() >= 5
    &&& s.subrange(0, 5) == "@base"@
    &&& (s.len() > 5 ==> w > 5)
    &&& spec_iriref_at(s, w)
    &&& wd < s.len()
    &&& s[wd] == '.'
}

/// A well-formed prefix directive: the `@prefix` keyword, whitespace,
/// a non-empty name, a colon, whitespace, an IRI in angle brackets,
/// and the closing dot.
pub open spec fn spec_prefix_directive(s: Seq<char>) -> bool {
    let w = spec_skip_ws(s, 7);
    let pe = spec_alnum_end(s, w);
    let w2 = spec_skip_ws(s, pe + 1);
    let wd = spec_skip_ws(s, spec_find_char(s, w2 + 1, '>') + 1);
    &&& s.len() >= 7
    &&& s.subrange(0, 7) == "@prefix"@
    &&& (s.len() > 7 ==> w > 7)
    &&& w < s.len()
    &&& w < pe < s.len()
    &&& s[pe] == ':'
    &&& w2 > pe + 1
    &&& spec_iriref_at(s, w2)
    &&& wd < s.len()
    &&& s[wd] == '.'
}

impl RuleParser {
    /// Parse the dot that ends declarations, optionally surrounded by
    /// whitespace: on success the position after it.
    pub fn parse_dot(&self, s: &str, i: usize) -> (r: Option<usize>)
        requires
            i <= s@.len(),
        ensures
            ({
                let w = spec_skip_ws(s@, i as int);
                match r {
                    Some(j) => w < s@.len() && s@[w] == '.'
                        && j == spec_skip_ws(s@, w + 1),
                    None => w >= s@.len() || s@[w] != '.',
                }
            }),
    {
        let n = s.unicode_len();
        proof {
            lemma_skip_ws_bounds(s@, i as int);
        }
        let w = skip_ws(s, i);
        if w >= n || s.get_char(w) != '.' {
            return None;
        }
        proof {
            lemma_skip_ws_bounds(s@, w as int + 1);
        }
        Some(skip_ws(s, w + 1))
    }

    /// Parse a base declaration `@base <iri> .`; the parser remembers
    /// the base.  The parse succeeds exactly on a well-formed
    /// directive.
    pub fn parse_base(&mut self, s: &str) -> (r: Option<(usize, String)>)
        requires
            old(self).wf(),
        ensures
            final(self).wf(),
            final(self).spec_names() == old(self).spec_names(),
            final(self).spec_prefixes() == old(self).spec_prefixes(),
            r is Some <==> spec_base_directive(s@),
            match r {
                Some((j, base)) => final(self).spec_base() == Some(base@)
                    && j <= s@.len()
                    && ({
                        let w = spec_skip_ws(s@, 5);
                        &&& spec_iriref_at(s@, w)
                        &&& base@ == s@.subrange(w + 1, spec_find_char(s@, w + 1, '>'))
                    }),
                None => final(self).spec_base() == old(self).spec_base(),
            },
    {
        let n = s.unicode_len();
        proof {
            reveal_strlit("@base");
        }
        if !str_starts_with(s, 0, "@base") {
            return None;
        }
        proof {
            lemma_skip_ws_bounds(s@, 5int);
        }
        let w = skip_ws(s, 5);
        if w == 5 && n > 5 {
            // a space must follow the keyword
            return None;
        }
        if w == n {
            return None;
        }
        match parse_iriref(s, w) {
            Some((j, base)) => {
                match self.parse_dot(s, j) {
                    Some(j2) => {
                        proof {
                            lemma_skip_ws_bounds(s@, j as int);
                            lemma_skip_ws_bounds(
                                s@, spec_skip_ws(s@, j as int) + 1);
                        }
                        let copy = crate::dictionary::clone_string(&base);
                        self.base = Some(copy);
                        Some((j2, base))
                    },
                    None => None,
                }
            },
            None => None,
        }
    }

    /// Parse a prefix declaration `@prefix name: <iri> .`; the parser
    /// records the prefix.  The parse succeeds exactly on a
    /// well-formed directive.
    pub fn parse_prefix(&mut self, s: &str) -> (r: Option<(usize, String)>)
        requires
            old(self).wf(),
        ensures
            final(self).wf(),
            final(self).spec_names() == old(self).spec_names(),
            final(self).spec_base() == old(self).spec_base(),
            r is Some <==> spec_prefix_directive(s@),
            match r {
                Some((j, prefix)) => j <= s@.len()
                    && final(self).spec_prefixes().len()
                        == old(self).spec_prefixes().len() + 1
                    && final(self).spec_prefixes().last().0 == prefix@
                    && (forall|k: int| 0 <= k < old(self).spec_prefixes().len()
                        ==> final(self).spec_prefixes()[k] == old(self).spec_prefixes()[k])
                    && ({
                        let w = spec_skip_ws(s@, 7);
                        let pe = spec_alnum_end(s@, w);
                        let w2 = spec_skip_ws(s@, pe + 1);
                        &&& prefix@ == s@.subrange(w, pe)
                        &&& spec_iriref_at(s@, w2)
                        &&& final(self).spec_prefixes().last().1
                            == s@.subrange(w2 + 1, spec_find_char(s@, w2 + 1, '>'))
                    }),
                None => final(self).spec_prefixes() == old(self).spec_prefixes(),
            },
    {
        let n = s.unicode_len();
        proof {
            reveal_strlit("@prefix");
        }
        if !str_starts_with(s, 0, "@prefix") {
            return None;
        }
        proof {
            lemma_skip_ws_bounds(s@, 7int);
        }
        let w = skip_ws(s, 7);
        if w == 7 && n > 7 {
            return None;
        }
        if w >= n {
            return None;
        }
        proof {
            lemma_alnum_end_bounds(s@, w as int);
        }
        let pe = alnum_end(s, w);
        if pe == w || pe >= n {
            return None;
        }
        if s.get_char(pe) != ':' {
            return None;
        }
        proof {
            lemma_skip_ws_bounds(s@, pe as int + 1);
        }
        let w2 = skip_ws(s, pe + 1);
        if w2 == pe + 1 {
            return None;
        }
        match parse_iriref(s, w2) {
            Some((j, iri)) => {
                match self.parse_dot(s, j) {
                    Some(j2) => {
                        proof {
                            lemma_skip_ws_bounds(s@, j as int);
                            lemma_skip_ws_bounds(
                                s@, spec_skip_ws(s@, j as int) + 1);
                        }
                        let prefix = take_range(s, w, pe);
                        let prefix_copy = crate::dictionary::clone_string(&prefix);
                        let ghost iri_view = iri@;
                        self.prefixes.push((prefix_copy, iri));
                        proof {
                            assert(self.spec_prefixes()
                                =~= old(self).spec_prefixes().push((prefix@, iri_view)));
                        }
                        Some((j2, prefix))
                    },
                    None => None,
                }
            },
            None => None,
        }
    }

    /// Parse an IRI: bracketed, or a prefixed name; the matched text.
    pub fn parse_iri(&self, s: &str, i: usize) -> (r: Option<(usize, String)>)
        requires
            i <= s@.len(),
        ensures
            match r {
                Some((j, _)) => i < j <= s@.len(),
                None => true,
            },
    {
        match parse_iriref(s, i) {
            Some((j, iri)) => {
                proof {
                    lemma_find_char_bounds(s@, i as int + 1, '>');
                }
                Some((j, iri))
            },
            None => self.parse_prefixed_name(s, i),
        }
    }

    /// Parse a prefixed name `ns:local`; the matched text.
    pub fn parse_prefixed_name(&self, s: &str, i: usize) -> (r: Option<(usize, String)>)
        requires
            i <= s@.len(),
        ensures
            match r {
                Some((j, _)) => i < j <= s@.len(),
                None => true,
            },
    {
        let n = s.unicode_len();
        proof {
            lemma_alnum_end_bounds(s@, i as int);
        }
        let ne = alnum_end(s, i);
        if ne >= n || s.get_char(ne) != ':' {
            return None;
        }
        proof {
            lemma_alnum_end_bounds(s@, ne as int + 1);
        }
        let le = alnum_end(s, ne + 1);
        if le == ne + 1 {
            return None;
        }
        Some((le, take_range(s, i, le)))
    }

    /// Parse a predicate name: an IRI or a plain name.
    pub fn parse_predicate_name(&self, s: &str, i: usize) -> (r: Option<(usize, String)>)
        requires
            i <= s@.len(),
        ensures
            match r {
                Some((j, _)) => i < j <= s@.len(),
                None => true,
            },
    {
        match self.parse_iri(s, i) {
            Some(found) => Some(found),
            None => self.parse_pred_name(s, i),
        }
    }

    /// Parse a plain predicate name: a letter followed by letters and
    /// digits.
    pub fn parse_pred_name(&self, s: &str, i: usize) -> (r: Option<(usize, String)>)
        requires
            i <= s@.len(),
        ensures
            match r {
                Some((j, name)) => i < j <= s@.len()
                    && spec_is_alpha(s@[i as int])
                    && j == spec_alnum_end(s@, i as int + 1)
                    && name@ == s@.subrange(i as int, j as int),
                None => i >= s@.len() || !spec_is_alpha(s@[i as int]),
            },
    {
        let n = s.unicode_len();
        if i >= n {
            return None;
        }
        let c = s.get_char(i);
        if !(('a' <= c && c <= 'z') || ('A' <= c && c <= 'Z')) {
            return None;
        }
        proof {
            lemma_alnum_end_bounds(s@, i as int + 1);
        }
        let e = alnum_end(s, i + 1);
        Some((e, take_range(s, i, e)))
    }

    /// Parse an RDF literal: a quoted value with a language tag or a
    /// datatype IRI.
    pub fn parse_rdf_literal(&self, s: &str, i: usize)
        -> (r: Option<(usize, ParsedRdfLiteral)>)
        requires
            i <= s@.len(),
        ensures
            match r {
                Some((j, _)) => i < j <= s@.len(),
                None => true,
            },
    {
        let n = s.unicode_len();
        if i >= n || s.get_char(i) != '"' {
            return None;
        }
        proof {
            lemma_find_char_bounds(s@, i as int + 1, '"');
        }
        let e = find_char(s, i + 1, '"');
        if e >= n {
            return None;
        }
        let value = take_range(s, i + 1, e);
        if e + 1 < n && s.get_char(e + 1) == '@' {
            proof {
                lemma_alnum_end_bounds(s@, e as int + 2);
            }
            let te = alnum_end(s, e + 2);
            if te == e + 2 {
                return None;
            }
            let tag = take_range(s, e + 2, te);
            return Some((te, ParsedRdfLiteral::LanguageString { value, tag }));
        }
        if e + 1 < n && s.get_char(e + 1) == '^' && e + 2 < n && s.get_char(e + 2) == '^' {
            match parse_iriref(s, e + 3) {
                Some((j, datatype)) => {
                    proof {
                        lemma_find_char_bounds(s@, e as int + 4, '>');
                    }
                    return Some((j, ParsedRdfLiteral::DatatypeValue { value, datatype }));
                },
                None => {
                    return None;
                },
            }
        }
        None
    }

    /// Intern the parts of a parsed RDF literal.
    fn intern_rdf_literal(&mut self, literal: ParsedRdfLiteral)
        -> (r: crate::model::RdfLiteral)
        requires
            old(self).wf(),
        ensures
            final(self).wf(),
            final(self).spec_base() == old(self).spec_base(),
            final(self).spec_prefixes() == old(self).spec_prefixes(),
            final(self).spec_names().len() >= old(self).spec_names().len(),
            forall|k: int| 0 <= k < old(self).spec_names().len()
                ==> final(self).spec_names()[k] == old(self).spec_names()[k],
    {
        match literal {
            ParsedRdfLiteral::LanguageString { value, tag } => {
                let v = self.intern_term(value);
                let t = self.intern_term(tag);
                crate::model::RdfLiteral::LanguageString { value: v, tag: t }
            },
            ParsedRdfLiteral::DatatypeValue { value, datatype } => {
                let v = self.intern_term(value);
                let d = self.intern_term(datatype);
                crate::model::RdfLiteral::DatatypeValue { value: v, datatype: d }
            },
        }
    }

    /// Parse a ground term: an IRI constant, an integer literal, or an
    /// RDF literal.
    pub fn parse_ground_term(&mut self, s: &str, i: usize)
        -> (r: Option<(usize, crate::model::Term)>)
        requires
            old(self).wf(),
            i <= s@.len(),
        ensures
            final(self).wf(),
            final(self).spec_base() == old(self).spec_base(),
            final(self).spec_prefixes() == old(self).spec_prefixes(),
            final(self).spec_names().len() >= old(self).spec_names().len(),
            forall|k: int| 0 <= k < old(self).spec_names().len()
                ==> final(self).spec_names()[k] == old(self).spec_names()[k],
            match r {
                Some((j, t)) => i < j <= s@.len() && !crate::model::is_variable_term(t),
                None => true,
            },
    {
        match self.parse_iri(s, i) {
            Some((j, iri)) => {
                let handle = self.intern_term(iri);
                return Some((j, crate::model::Term::Constant(crate::model::Identifier(handle))));
            },
            None => (),
        }
        match parse_integer(s, i) {
            Some((j, value)) => {
                return Some((j, crate::model::Term::NumericLiteral(
                    crate::model::NumericLiteral::Integer(value))));
            },
            None => (),
        }
        match self.parse_rdf_literal(s, i) {
            Some((j, literal)) => {
                let interned = self.intern_rdf_literal(literal);
                Some((j, crate::model::Term::RdfLiteral(interned)))
            },
            None => None,
        }
    }

    /// Parse a fact `pred(t1,...,tn) .`.
    pub fn parse_fact(&mut self, s: &str) -> (r: Option<(usize, crate::model::Fact)>)
        requires
            old(self).wf(),
        ensures
            final(self).wf(),
            final(self).spec_base() == old(self).spec_base(),
            final(self).spec_prefixes() == old(self).spec_prefixes(),
            final(self).spec_names().len() >= old(self).spec_names().len(),
            forall|k: int| 0 <= k < old(self).spec_names().len()
                ==> final(self).spec_names()[k] == old(self).spec_names()[k],
            match r {
                Some((j, f)) => j <= s@.len()
                    && f.0.predicate.0 < final(self).spec_names().len()
                    && f.0.terms@.len() >= 1
                    && forall|k: int| 0 <= k < f.0.terms@.len()
                        ==> !crate::model::is_variable_term(#[trigger] f.0.terms@[k]),
                None => true,
            },
    {
        let n = s.unicode_len();
        let (mut j, predicate_name) = match self.parse_predicate_name(s, 0) {
            Some(found) => found,
            None => {
                return None;
            },
        };
        if j >= n || s.get_char(j) != '(' {
            return None;
        }
        j = j + 1;
        let mut terms: Vec<crate::model::Term> = Vec::new();
        let ghost names0 = self.spec_names();
        loop
            invariant
                self.wf(),
                n == s@.len(),
                j <= n,
                self.spec_base() == old(self).spec_base(),
                self.spec_prefixes() == old(self).spec_prefixes(),
                self.spec_names().len() >= old(self).spec_names().len(),
                forall|k: int| 0 <= k < old(self).spec_names().len()
                    ==> self.spec_names()[k] == old(self).spec_names()[k],
                forall|k: int| 0 <= k < terms@.len()
                    ==> !crate::model::is_variable_term(#[trigger] terms@[k]),
            decreases n - j,
        {
            match self.parse_ground_term(s, j) {
                Some((j2, t)) => {
                    terms.push(t);
                    j = j2;
                },
                None => {
                    return None;
                },
            }
            if j < n && s.get_char(j) == ',' {
                j = j + 1;
            } else {
                break;
            }
        }
        if j >= n || s.get_char(j) != ')' {
            return None;
        }
        match self.parse_dot(s, j + 1) {
            Some(j2) => {
                proof {
                    lemma_skip_ws_bounds(s@, j as int + 1);
                    lemma_skip_ws_bounds(s@, spec_skip_ws(s@, j as int + 1) + 1);
                }
                if terms.len() == 0 {
                    return None;
                }
                let predicate = crate::model::Identifier(self.intern_term(predicate_name));
                Some((j2, crate::model::Fact(crate::model::Atom { predicate, terms })))
            },
            None => None,
        }
    }

    /// Parse a statement: a fact (rules are not parsed yet).
    pub fn parse_statement(&mut self, s: &str)
        -> (r: Option<(usize, crate::model::Statement)>)
        requires
            old(self).wf(),
        ensures
            final(self).wf(),
            match r {
                Some((j, st)) => j <= s@.len() && st is Fact,
                None => true,
            },
    {
        match self.parse_fact(s) {
            Some((j, f)) => Some((j, crate::model::Statement::Fact(f))),
            None => None,
        }
    }

    /// Parsing data source declarations is not supported yet; nothing
    /// is accepted.
    pub fn parse_source(&self, s: &str) -> (r: Option<(usize, crate::model::DataSource)>)
        ensures
            r is None,
    {
        None
    }

    /// Parsing rules is not supported yet; nothing is accepted.
    pub fn parse_rule(&self, s: &str) -> (r: Option<(usize, crate::model::Rule)>)
        ensures
            r is None,
    {
        None
    }

    /// Parsing whole programs is not supported yet; nothing is accepted.
    pub fn parse_program(&self, s: &str) -> (r: Option<crate::model::Program>)
        ensures
            r is None,
    {
        None
    }

    /// Abbreviating an absolute IRI is not supported yet.
    pub fn unresolve_absolute_iri(&self, iri: &str) -> (r: Option<String>)
        ensures
            r is None,
    {
        None
    }

    /// Expand an IRI to an absolute one: an IRI with a scheme stands as
    /// it is, anything else goes behind the base (or stands alone when
    /// no base is set).
    pub fn absolutize_iri(&self, iri: &str) -> (r: String)
        ensures
            r@ == if spec_is_absolute_iri(iri@) {
                iri@
            } else {
                (match self.spec_base() {
                    Some(b) => b,
                    None => Seq::<char>::empty(),
                }) + iri@
            },
    {
        if is_absolute(iri) {
            iri.to_owned()
        } else {
            match &self.base {
                Some(b) => {
                    let mut out = crate::dictionary::clone_string(b);
                    out.append(iri);
                    out
                },
                None => {
                    let out = iri.to_owned();
                    proof {
                        assert(Seq::<char>::empty() + iri@ =~= iri@);
                    }
                    out
                },
            }
        }
    }
}

/// Parse an optionally signed integer literal.
pub fn parse_integer(s: &str, i: usize) -> (r: Option<(usize, i64)>)
    requires
        i <= s@.len(),
    ensures
        match r {
            Some((j, _)) => i < j <= s@.len(),
            None => true,
        },
{
    let n = s.unicode_len();
    if i >= n {
        return None;
    }
    let c0 = s.get_char(i);
    let negative = c0 == '-';
    let d0: usize = if c0 == '-' || c0 == '+' { i + 1 } else { i };
    if d0 >= n {
        return None;
    }
    let mut j = d0;
    let mut acc: i64 = 0;
    while j < n
        invariant
            n == s@.len(),
            i <= d0 <= j <= n,
            acc >= 0,
        decreases n - j,
    {
        let c = s.get_char(j);
        if !('0' <= c && c <= '9') {
            break;
        }
        let d = (c as u32 - '0' as u32) as i64;
        if acc > (i64::MAX - d) / 10 {
            return None;
        }
        acc = acc * 10 + d;
        j = j + 1;
    }
    if j == d0 {
        return None;
    }
    if negative {
        Some((j, -acc))
    } else {
        Some((j, acc))
    }
}

/// Whether `s` holds `prefix` at position `i`.
pub fn str_starts_with(s: &str, i: usize, prefix: &str) -> (r: bool)
    requires
        i <= s@.len(),
    ensures
        r == (i + prefix@.len() <= s@.len()
            && s@.subrange(i as int, i as int + prefix@.len()) == prefix@),
{
    let n = s.unicode_len();
    let m = prefix.unicode_len();
    if m > n - i {
        return false;
    }
    let mut k: usize = 0;
    while k < m
        invariant
            n == s@.len(),
            m == prefix@.len(),
            i + m <= n,
            k <= m,
            forall|x: int| 0 <= x < k ==> s@[i + x] == prefix@[x],
        decreases m - k,
    {
        if s.get_char(i + k) != prefix.get_char(k) {
            proof {
                assert(s@.subrange(i as int, i as int + m)[k as int] == s@[i + k]);
            }
            return false;
        }
        k = k + 1;
    }
    proof {
        assert(s@.subrange(i as int, i as int + m as int) =~= prefix@);
    }
    true
}

} // verus!
