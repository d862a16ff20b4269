//! A finite map term: keys are strings or identifiers, values are
//! arbitrary terms; every key occurs at most once, and the entries are
//! kept in ascending key order, so iteration visits keys in that
//! order: string keys before identifier keys, string keys by their
//! characters, identifier keys by their value.

use vstd::prelude::*;
use crate::model::{Identifier, Term};

verus! {

/// A key in a map.
#[derive(Debug, Eq, PartialEq, Clone)]
pub enum Key {
    /// A string key.
    String(String),
    /// An identifier key.
    Identifier(Identifier),
}

/// Whether two keys name the same entry: string keys by contents,
/// identifier keys by value.
pub open spec fn key_eq_spec(a: Key, b: Key) -> bool {
    match (a, b) {
        (Key::String(x), Key::String(y)) => x@ == y@,
        (Key::Identifier(x), Key::Identifier(y)) => x == y,
        _ => false,
    }
}

/// Character sequences in strict lexicographic order by code point;
/// a proper prefix precedes its extensions.
pub open spec fn str_lt_spec(a: Seq<char>, b: Seq<char>) -> bool
    decreases a.len(),
{
    if b.len() == 0 {
        false
    } else if a.len() == 0 {
        true
    } else if a[0] != b[0] {
        a[0] < b[0]
    } else {
        str_lt_spec(a.skip(1), b.skip(1))
    }
}

/// Keys in strict ascending order: string keys before identifier keys,
/// string keys by their characters, identifier keys by their value.
pub open spec fn key_lt_spec(a: Key, b: Key) -> bool {
    match (a, b) {
        (Key::String(x), Key::String(y)) => str_lt_spec(x@, y@),
        (Key::String(_), Key::Identifier(_)) => true,
        (Key::Identifier(_), Key::String(_)) => false,
        (Key::Identifier(x), Key::Identifier(y)) => x.0 < y.0,
    }
}

/// The character order is total: two sequences are ordered one way,
/// the other, or equal.
pub proof fn lemma_str_trichotomy(a: Seq<char>, b: Seq<char>)
    ensures
        str_lt_spec(a, b) || a == b || str_lt_spec(b, a),
    decreases a.len(),
{
    if b.len() == 0 {
        if a.len() == 0 {
            assert(a =~= b);
        }
    } else if a.len() == 0 {
    } else if a[0] == b[0] {
        lemma_str_trichotomy(a.skip(1), b.skip(1));
        if a.skip(1) == b.skip(1) {
            assert(a.skip(1).len() == a.len() - 1);
            assert(b.skip(1).len() == b.len() - 1);
            assert(a.len() == b.len());
            assert forall|i: int| 0 <= i < a.len() implies a[i] == b[i] by {
                if i > 0 {
                    assert(a.skip(1)[i - 1] == a[i]);
                    assert(b.skip(1)[i - 1] == b[i]);
                }
            }
            assert(a =~= b);
        }
    }
}

/// The character order is asymmetric and irreflexive.
pub proof fn lemma_str_lt_asym(a: Seq<char>, b: Seq<char>)
    requires
        str_lt_spec(a, b),
    ensures
        !str_lt_spec(b, a),
        a != b,
    decreases a.len(),
{
    if b.len() == 0 {
    } else if a.len() == 0 {
        assert(a.len() != b.len());
    } else if a[0] != b[0] {
    } else {
        lemma_str_lt_asym(a.skip(1), b.skip(1));
        if a == b {
            assert(a.skip(1) == b.skip(1));
        }
    }
}

/// The character order is transitive.
pub proof fn lemma_str_lt_trans(a: Seq<char>, b: Seq<char>, c: Seq<char>)
    requires
        str_lt_spec(a, b),
        str_lt_spec(b, c),
    ensures
        str_lt_spec(a, c),
    decreases a.len(),
{
    if a.len() == 0 {
    } else {
        // a nonempty forces b and c nonempty
        if a[0] == b[0] && b[0] == c[0] {
            lemma_str_lt_trans(a.skip(1), b.skip(1), c.skip(1));
        }
    }
}

/// The key order is total: two keys are ordered one way, the other,
/// or name the same entry.
pub proof fn lemma_key_trichotomy(a: Key, b: Key)
    ensures
        key_lt_spec(a, b) || key_eq_spec(a, b) || key_lt_spec(b, a),
{
    match (a, b) {
        (Key::String(x), Key::String(y)) => {
            lemma_str_trichotomy(x@, y@);
        },
        _ => {},
    }
}

/// The key order is asymmetric, irreflexive, and transitive, and
/// respects key equality on the left.
pub proof fn lemma_key_lt_asym(a: Key, b: Key)
    requires
        key_lt_spec(a, b),
    ensures
        !key_lt_spec(b, a),
        !key_eq_spec(a, b),
{
    match (a, b) {
        (Key::String(x), Key::String(y)) => {
            lemma_str_lt_asym(x@, y@);
        },
        _ => {},
    }
}

/// Key equality is symmetric.
pub proof fn lemma_key_eq_sym(a: Key, b: Key)
    ensures
        key_eq_spec(a, b) == key_eq_spec(b, a),
{
}

/// Keys naming the same entry stand in the same order against every
/// other key.
pub proof fn lemma_key_eq_lt_congruence(a: Key, b: Key, c: Key)
    requires
        key_eq_spec(a, b),
    ensures
        key_lt_spec(a, c) == key_lt_spec(b, c),
        key_lt_spec(c, a) == key_lt_spec(c, b),
{
}

/// The key order is transitive.
pub proof fn lemma_key_lt_trans(a: Key, b: Key, c: Key)
    requires
        key_lt_spec(a, b),
        key_lt_spec(b, c),
    ensures
        key_lt_spec(a, c),
{
    match (a, c) {
        (Key::String(x), Key::String(z)) => {
            match b {
                Key::String(y) => {
                    lemma_str_lt_trans(x@, y@, z@);
                },
                Key::Identifier(_) => {},
            }
        },
        _ => {},
    }
}

impl Key {
    /// A key from a string.
    pub fn string(s: String) -> (r: Key)
        ensures
            r matches Key::String(x) && x@ == s@,
    {
        Key::String(s)
    }

    /// A key from an identifier.
    pub fn identifier(i: Identifier) -> (r: Key)
        ensures
            r == Key::Identifier(i),
    {
        Key::Identifier(i)
    }
}

/// Whether two keys name the same entry.
pub fn key_eq(a: &Key, b: &Key) -> (r: bool)
    ensures
        r == key_eq_spec(*a, *b),
{
    match (a, b) {
        (Key::String(x), Key::String(y)) => crate::dictionary::compare_strings(x, y),
        (Key::Identifier(x), Key::Identifier(y)) => x == y,
        _ => false,
    }
}

/// Whether the characters of `a` precede those of `b`.
pub fn str_lt(a: &str, b: &str) -> (r: bool)
    ensures
        r == str_lt_spec(a@, b@),
{
    let na = a.unicode_len();
    let nb = b.unicode_len();
    let mut i: usize = 0;
    proof {
        assert(a@.skip(0) =~= a@);
        assert(b@.skip(0) =~= b@);
    }
    while i < na && i < nb
        invariant
            na == a@.len(),
            nb == b@.len(),
            i <= na,
            i <= nb,
            str_lt_spec(a@, b@) == str_lt_spec(a@.skip(i as int), b@.skip(i as int)),
        decreases na - i,
    {
        let ca = a.get_char(i);
        let cb = b.get_char(i);
        if ca != cb {
            proof {
                assert(a@.skip(i as int)[0] == ca);
                assert(b@.skip(i as int)[0] == cb);
            }
            return ca < cb;
        }
        proof {
            assert(a@.skip(i as int)[0] == ca);
            assert(b@.skip(i as int)[0] == cb);
            assert(a@.skip(i as int).skip(1) =~= a@.skip(i as int + 1));
            assert(b@.skip(i as int).skip(1) =~= b@.skip(i as int + 1));
        }
        i = i + 1;
    }
    proof {
        assert(a@.skip(i as int).len() == na - i);
        assert(b@.skip(i as int).len() == nb - i);
    }
    na < nb
}

/// Whether `a` strictly precedes `b` in the key order.
pub fn key_lt(a: &Key, b: &Key) -> (r: bool)
    ensures
        r == key_lt_spec(*a, *b),
{
    match (a, b) {
        (Key::String(x), Key::String(y)) => str_lt(x.as_str(), y.as_str()),
        (Key::String(_), Key::Identifier(_)) => true,
        (Key::Identifier(_), Key::String(_)) => false,
        (Key::Identifier(x), Key::Identifier(y)) => x.0 < y.0,
    }
}

/// A map assigning terms to keys, each key at most once; the entries
/// are kept in strictly ascending key order, so iteration visits them
/// in that order.
#[derive(Debug, Clone)]
pub struct TermMap {
    pairs: Vec<(Key, Term)>,
}

impl TermMap {
    /// The entries, in ascending key order.
    pub closed spec fn spec_pairs(&self) -> Seq<(Key, Term)> {
        self.pairs@
    }

    /// The keys are strictly ascending (so no key occurs twice).
    pub open spec fn wf(&self) -> bool {
        forall|i: int, j: int| 0 <= i < j < self.spec_pairs().len()
            ==> key_lt_spec(
                (#[trigger] self.spec_pairs()[i]).0,
                (#[trigger] self.spec_pairs()[j]).0,
            )
    }

    /// Strict ascent forbids two entries with the same key.
    pub proof fn lemma_keys_distinct(&self)
        requires
            self.wf(),
        ensures
            forall|i: int, j: int| 0 <= i < j < self.spec_pairs().len()
                ==> !key_eq_spec(
                    (#[trigger] self.spec_pairs()[i]).0,
                    (#[trigger] self.spec_pairs()[j]).0,
                ),
    {
        assert forall|i: int, j: int| 0 <= i < j < self.spec_pairs().len() implies
            !key_eq_spec(
                (#[trigger] self.spec_pairs()[i]).0,
                (#[trigger] self.spec_pairs()[j]).0,
            ) by {
            lemma_key_lt_asym(self.spec_pairs()[i].0, self.spec_pairs()[j].0);
        }
    }

    /// An empty map.
    pub fn new() -> (r: TermMap)
        ensures
            r.wf(),
            r.spec_pairs() == Seq::<(Key, Term)>::empty(),
    {
        TermMap { pairs: Vec::new() }
    }

    /// The entries of the map, in ascending key order.
    pub fn iter(&self) -> (r: &Vec<(Key, Term)>)
        ensures
            r@ == self.spec_pairs(),
    {
        &self.pairs
    }

    /// Bind `key` to `value`: an existing entry with the same key is
    /// replaced in place, otherwise the entry enters at the position
    /// the key order assigns it.
    pub fn insert(&mut self, key: Key, value: Term)
        requires
            old(self).wf(),
        ensures
            final(self).wf(),
            ({
                let pairs = old(self).spec_pairs();
                if exists|i: int| 0 <= i < pairs.len()
                    && key_eq_spec((#[trigger] pairs[i]).0, key) {
                    exists|i: int| 0 <= i < pairs.len()
                        && key_eq_spec((#[trigger] pairs[i]).0, key)
                        && final(self).spec_pairs() == pairs.update(i, (key, value))
                } else {
                    exists|i: int| 0 <= i <= pairs.len()
                        && final(self).spec_pairs() == pairs.insert(i, (key, value))
                        && (forall|k: int| 0 <= k < i
                            ==> key_lt_spec((#[trigger] pairs[k]).0, key))
                        && (forall|k: int| i <= k < pairs.len()
                            ==> key_lt_spec(key, (#[trigger] pairs[k]).0))
                }
            }),
    {
        let n = self.pairs.len();
        let mut i: usize = 0;
        while i < n
            invariant
                n == self.pairs@.len(),
                i <= n,
                *self == *old(self),
                self.wf(),
                forall|k: int| 0 <= k < i
                    ==> key_lt_spec((#[trigger] self.pairs@[k]).0, key),
            decreases n - i,
        {
            if key_eq(&self.pairs[i].0, &key) {
                self.pairs.set(i, (key, value));
                proof {
                    let op = old(self).spec_pairs();
                    assert(key_eq_spec(op[i as int].0, key));
                    assert(self.spec_pairs() == op.update(i as int, (key, value)));
                    assert forall|a: int, b: int|
                        0 <= a < b < self.spec_pairs().len() implies
                        key_lt_spec(self.spec_pairs()[a].0, self.spec_pairs()[b].0) by {
                        // the replacing key names the same entry, so the
                        // order around position i is undisturbed
                        assert(key_lt_spec(op[a].0, op[b].0));
                        if a == i {
                            lemma_key_eq_lt_congruence(op[a as int].0, key, op[b].0);
                        } else if b == i {
                            lemma_key_eq_lt_congruence(op[b as int].0, key, op[a].0);
                        }
                    }
                }
                return;
            }
            if key_lt(&key, &self.pairs[i].0) {
                let ghost pre = self.pairs@;
                self.pairs.insert(i, (key, value));
                proof {
                    assert(pre == old(self).spec_pairs());
                    assert(forall|x: int, y: int| 0 <= x < y < pre.len()
                        ==> key_lt_spec(
                            (#[trigger] old(self).spec_pairs()[x]).0,
                            (#[trigger] old(self).spec_pairs()[y]).0,
                        ));
                    assert(self.pairs@ == pre.insert(i as int, (key, value)));
                    pre.insert_ensures(i as int, (key, value));
                    assert forall|k: int| i <= k < pre.len() implies
                        key_lt_spec(key, (#[trigger] pre[k]).0) by {
                        if k > i {
                            assert(key_lt_spec(
                                old(self).spec_pairs()[i as int].0,
                                old(self).spec_pairs()[k].0,
                            ));
                            lemma_key_lt_trans(key, pre[i as int].0, pre[k].0);
                        }
                    }
                    assert forall|k: int| 0 <= k < i implies
                        !key_eq_spec((#[trigger] pre[k]).0, key) by {
                        lemma_key_lt_asym(pre[k].0, key);
                    }
                    assert forall|k: int| i <= k < pre.len() implies
                        !key_eq_spec((#[trigger] pre[k]).0, key) by {
                        lemma_key_lt_asym(key, pre[k].0);
                        lemma_key_eq_sym(pre[k].0, key);
                    }
                    assert forall|a: int, b: int|
                        0 <= a < b < self.spec_pairs().len() implies
                        key_lt_spec(self.spec_pairs()[a].0, self.spec_pairs()[b].0) by {
                        if b < i {
                            assert(self.spec_pairs()[a] == pre[a]);
                            assert(self.spec_pairs()[b] == pre[b]);
                        } else if a > i {
                            assert(self.spec_pairs()[a] == pre[a - 1]);
                            assert(self.spec_pairs()[b] == pre[b - 1]);
                        } else if a == i {
                            assert(self.spec_pairs()[a] == (key, value));
                            assert(self.spec_pairs()[b] == pre[b - 1]);
                        } else if b == i {
                            assert(self.spec_pairs()[a] == pre[a]);
                            assert(self.spec_pairs()[b] == (key, value));
                        } else {
                            // a < i < b
                            assert(self.spec_pairs()[a] == pre[a]);
                            assert(self.spec_pairs()[b] == pre[b - 1]);
                        }
                    }
                }
                return;
            }
            proof {
                lemma_key_trichotomy(self.pairs@[i as int].0, key);
            }
            i = i + 1;
        }
        let ghost pre = self.pairs@;
        self.pairs.push((key, value));
        proof {
            assert(self.pairs@ =~= pre.insert(pre.len() as int, (key, value)));
            assert forall|k: int| 0 <= k < pre.len() implies
                !key_eq_spec((#[trigger] pre[k]).0, key) by {
                lemma_key_lt_asym(pre[k].0, key);
            }
            assert forall|a: int, b: int|
                0 <= a < b < self.spec_pairs().len() implies
                key_lt_spec(self.spec_pairs()[a].0, self.spec_pairs()[b].0) by {
                if b < pre.len() {
                    assert(self.spec_pairs()[a] == pre[a]);
                    assert(self.spec_pairs()[b] == pre[b]);
                } else {
                    assert(self.spec_pairs()[a] == pre[a]);
                    assert(self.spec_pairs()[b] == (key, value));
                }
            }
        }
    }

    /// Build a map from a list of pairs; on equal keys the later pair
    /// wins.
    pub fn from_pairs(pairs: Vec<(Key, Term)>) -> (r: TermMap)
        ensures
            r.wf(),
    {
        let mut m = TermMap::new();
        let n = pairs.len();
        let mut i: usize = 0;
        while i < n
            invariant
                n == pairs@.len(),
                i <= n,
                m.wf(),
            decreases n - i,
        {
            let (k, v) = (clone_key(&pairs[i].0), pairs[i].1);
            m.insert(k, v);
            i = i + 1;
        }
        m
    }
}

/// A copy of a key with the same contents.
pub fn clone_key(k: &Key) -> (r: Key)
    ensures
        key_eq_spec(*k, r),
        r is String <==> k is String,
{
    match k {
        Key::String(s) => Key::String(crate::dictionary::clone_string(s)),
        Key::Identifier(i) => Key::Identifier(*i),
    }
}

} // verus!
