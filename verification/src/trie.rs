//! Trie storage: a relation of arity `k` held as `k` column storages
//! and `k - 1` interval maps, where the map at layer `l` delimits, for
//! each value of layer `l`, the range of its children at layer `l + 1`.
//! Tuples read off by depth-first descent are in strict lexicographic
//! order.

use vstd::prelude::*;
use crate::column::{AdaptiveColumnBuilder, ColumnT};
use crate::seq_sorted_strict;

verus! {

// ------------------------------------------------------------------
// Interval columns
// ------------------------------------------------------------------

/// The per-layer offset array delimiting child ranges: strictly
/// increasing, starting at zero.
pub struct IntervalColumn {
    offsets: Vec<usize>,
}

impl View for IntervalColumn {
    type V = Seq<usize>;

    closed spec fn view(&self) -> Seq<usize> {
        self.offsets@
    }
}

impl IntervalColumn {
    /// At least one boundary, starting at zero, strictly increasing.
    pub open spec fn wf(&self) -> bool {
        &&& self@.len() >= 1
        &&& self@[0] == 0
        &&& forall|i: int, j: int| 0 <= i < j < self@.len() ==> self@[i] < self@[j]
    }

    /// Wrap an offset array.
    pub fn new(offsets: Vec<usize>) -> (r: IntervalColumn)
        ensures
            r@ == offsets@,
    {
        IntervalColumn { offsets }
    }

    /// The number of intervals (one per parent value).
    pub fn num_intervals(&self) -> (r: usize)
        requires
            self@.len() >= 1,
        ensures
            r == self@.len() - 1,
    {
        self.offsets.len() - 1
    }

    /// The child range of parent `j`: start inclusive, end exclusive.
    pub fn bounds(&self, j: usize) -> (r: (usize, usize))
        requires
            self.wf(),
            j + 1 < self@.len(),
        ensures
            r.0 == self@[j as int],
            r.1 == self@[j as int + 1],
            r.0 < r.1,
    {
        let n = self.offsets.len();
        proof {
            assert(j + 1 < n);
        }
        (self.offsets[j], self.offsets[j + 1])
    }
}

// ------------------------------------------------------------------
// The trie and its tuple enumeration
// ------------------------------------------------------------------

/// A relation stored as columns plus interval maps.
pub struct Trie {
    /// One column storage per layer.
    pub columns: Vec<ColumnT>,
    /// One interval map per non-leaf layer.
    pub intervals: Vec<IntervalColumn>,
}

/// A tuple `a` precedes `b` lexicographically, strictly.
pub open spec fn lex_less(a: Seq<u64>, b: Seq<u64>) -> bool
    decreases a.len(),
{
    if a.len() == 0 || b.len() == 0 {
        false
    } else if a[0] < b[0] {
        true
    } else if a[0] == b[0] {
        lex_less(a.skip(1), b.skip(1))
    } else {
        false
    }
}

impl Trie {
    /// The arity of the relation.
    pub open spec fn spec_arity(&self) -> int {
        self.columns@.len() as int
    }

    /// The contents of the layer-`l` column.
    pub open spec fn layer(&self, l: int) -> Seq<u64> {
        self.columns@[l]@
    }

    /// The offsets of the interval map under layer `l`.
    pub open spec fn offsets(&self, l: int) -> Seq<usize> {
        self.intervals@[l]@
    }

    /// The structural invariant: shapes line up, offsets delimit the
    /// next layer exactly, and every child range is strictly sorted.
    pub open spec fn wf(&self) -> bool {
        &&& self.columns@.len() >= 1
        &&& self.intervals@.len() == self.columns@.len() - 1
        &&& forall|l: int| 0 <= l < self.columns@.len()
            ==> (#[trigger] self.columns@[l]).wf()
        &&& forall|l: int| 0 <= l < self.intervals@.len()
            ==> (#[trigger] self.intervals@[l]).wf()
        &&& forall|l: int| 0 <= l < self.intervals@.len()
            ==> (#[trigger] self.offsets(l)).len() == self.layer(l).len() + 1
        &&& forall|l: int| 0 <= l < self.intervals@.len()
            ==> (#[trigger] self.offsets(l))[self.layer(l).len() as int]
                == self.layer(l + 1).len()
        &&& seq_sorted_strict(self.layer(0))
        &&& forall|l: int, j: int, a: int, b: int|
            #![trigger self.offsets(l)[j], self.layer(l + 1)[a], self.layer(l + 1)[b]]
            0 <= l < self.intervals@.len() && 0 <= j < self.layer(l).len()
                && self.offsets(l)[j] <= a < b < self.offsets(l)[j + 1]
            ==> self.layer(l + 1)[a] < self.layer(l + 1)[b]
    }

    /// The number of layers.
    pub fn arity(&self) -> (r: usize)
        ensures
            r == self.spec_arity(),
    {
        self.columns.len()
    }
}

/// The tuples of the subtrie rooted in layer `l`, over the index range
/// `[lo, hi)` of that layer, by depth-first descent.
pub open spec fn subtrie_rows(t: Trie, l: int, lo: int, hi: int) -> Seq<Seq<u64>>
    decreases t.spec_arity() - l, hi - lo when 0 <= l < t.spec_arity() && lo <= hi
{
    if lo >= hi {
        Seq::empty()
    } else {
        let v = t.layer(l)[lo];
        let block: Seq<Seq<u64>> = if l == t.spec_arity() - 1 {
            seq![seq![v]]
        } else {
            subtrie_rows(t, l + 1, t.offsets(l)[lo] as int, t.offsets(l)[lo + 1] as int)
                .map_values(|row: Seq<u64>| seq![v] + row)
        };
        block + subtrie_rows(t, l, lo + 1, hi)
    }
}

/// All tuples of the trie, in depth-first order.
pub open spec fn trie_rows(t: Trie) -> Seq<Seq<u64>> {
    subtrie_rows(t, 0, 0, t.layer(0).len() as int)
}

/// Prepending one equal value to two tuples keeps their strict order.
proof fn lemma_lex_prepend(v: u64, a: Seq<u64>, b: Seq<u64>)
    ensures
        lex_less(seq![v] + a, seq![v] + b) == lex_less(a, b),
{
    let pa = seq![v] + a;
    let pb = seq![v] + b;
    assert(pa[0] == v && pb[0] == v);
    assert(pa.skip(1) =~= a);
    assert(pb.skip(1) =~= b);
}

/// The depth-first tuples of a well-formed subtrie range: each has the
/// remaining arity as its length, they are strictly ordered, they start
/// with the range's values, and every index of the range contributes.
proof fn lemma_subtrie_sorted(t: Trie, l: int, lo: int, hi: int)
    requires
        t.wf(),
        0 <= l < t.spec_arity(),
        0 <= lo <= hi <= t.layer(l).len(),
        forall|a: int, b: int| lo <= a < b < hi ==> t.layer(l)[a] < t.layer(l)[b],
        l < t.spec_arity() - 1 ==> hi < t.offsets(l).len(),
    ensures
        ({
            let rows = subtrie_rows(t, l, lo, hi);
            &&& forall|r: int| 0 <= r < rows.len()
                ==> (#[trigger] rows[r]).len() == t.spec_arity() - l
            &&& forall|i: int, j: int| 0 <= i < j < rows.len()
                ==> lex_less(rows[i], rows[j])
            &&& forall|r: int| 0 <= r < rows.len() && lo < hi
                ==> (#[trigger] rows[r])[0] >= t.layer(l)[lo]
            &&& (lo < hi ==> rows.len() > 0)
        }),
    decreases t.spec_arity() - l, hi - lo,
{
    if lo >= hi {
        return;
    }
    let v = t.layer(l)[lo];
    let rest = subtrie_rows(t, l, lo + 1, hi);
    lemma_subtrie_sorted(t, l, lo + 1, hi);
    let block: Seq<Seq<u64>> = if l == t.spec_arity() - 1 {
        seq![seq![v]]
    } else {
        subtrie_rows(t, l + 1, t.offsets(l)[lo] as int, t.offsets(l)[lo + 1] as int)
            .map_values(|row: Seq<u64>| seq![v] + row)
    };
    if l < t.spec_arity() - 1 {
        let clo = t.offsets(l)[lo] as int;
        let chi = t.offsets(l)[lo + 1] as int;
        assert(clo < chi);
        assert(chi <= t.layer(l + 1).len()) by {
            let last = t.layer(l).len() as int;
            assert(t.offsets(l)[last] == t.layer(l + 1).len());
            if lo + 1 < last {
                assert(t.offsets(l)[lo + 1] < t.offsets(l)[last]);
            }
        }
        assert(forall|a: int, b: int|
            #![trigger t.layer(l + 1)[a], t.layer(l + 1)[b]]
            clo <= a < b < chi ==> t.layer(l + 1)[a] < t.layer(l + 1)[b]);
        assert(l + 1 < t.spec_arity() - 1 ==> chi < t.offsets(l + 1).len()) by {
            if l + 1 < t.spec_arity() - 1 {
                assert(t.offsets(l + 1).len() == t.layer(l + 1).len() + 1);
            }
        }
        lemma_subtrie_sorted(t, l + 1, clo, chi);
        let inner = subtrie_rows(t, l + 1, clo, chi);
        assert(block.len() == inner.len());
        assert(inner.len() > 0);
        assert forall|r: int| 0 <= r < block.len() implies
            (#[trigger] block[r]).len() == t.spec_arity() - l
                && block[r][0] == v by {
            assert(block[r] == seq![v] + inner[r]);
        }
        assert forall|i: int, j: int| 0 <= i < j < block.len() implies
            lex_less(block[i], block[j]) by {
            lemma_lex_prepend(v, inner[i], inner[j]);
            assert(block[i] == seq![v] + inner[i]);
            assert(block[j] == seq![v] + inner[j]);
        }
    } else {
        assert(block.len() == 1);
        assert(block[0] == seq![v]);
        assert(block[0].len() == 1);
        assert(block[0][0] == v);
    }
    let rows = subtrie_rows(t, l, lo, hi);
    assert(rows == block + rest);
    // every row of the rest starts past `v`
    assert forall|r: int| 0 <= r < rest.len() implies
        (#[trigger] rest[r])[0] > v by {
        assert(lo + 1 < hi);
        assert(rest[r][0] >= t.layer(l)[lo + 1]);
        assert(t.layer(l)[lo] < t.layer(l)[lo + 1]);
    }
    assert forall|i: int, j: int| 0 <= i < j < rows.len() implies
        lex_less(rows[i], rows[j]) by {
        if j < block.len() {
            assert(rows[i] == block[i] && rows[j] == block[j]);
        } else if i >= block.len() {
            assert(rows[i] == rest[i - block.len()]);
            assert(rows[j] == rest[j - block.len()]);
        } else {
            assert(rows[i] == block[i]);
            assert(rows[j] == rest[j - block.len()]);
            assert(rows[i][0] == v);
            assert(rows[j][0] > v);
            assert(rows[i].len() > 0 && rows[j].len() > 0);
        }
    }
    assert forall|r: int| 0 <= r < rows.len() implies
        (#[trigger] rows[r]).len() == t.spec_arity() - l by {
        if r >= block.len() {
            assert(rows[r] == rest[r - block.len()]);
        } else {
            assert(rows[r] == block[r]);
        }
    }
    assert forall|r: int| 0 <= r < rows.len() && lo < hi implies
        (#[trigger] rows[r])[0] >= t.layer(l)[lo] by {
        if r >= block.len() {
            assert(rows[r] == rest[r - block.len()]);
            assert(rows[r][0] > v);
        } else {
            assert(rows[r] == block[r]);
        }
    }
}

/// Build a column of the given values, letting the adaptive builder
/// pick the storage.
fn column_from_values(values: Vec<u64>) -> (r: ColumnT)
    ensures
        r.wf(),
        r@ == values@,
{
    let mut builder = AdaptiveColumnBuilder::new();
    let n = values.len();
    let mut i: usize = 0;
    while i < n
        invariant
            n == values@.len(),
            i <= n,
            builder@ == values@.take(i as int),
        decreases n - i,
    {
        builder.add(values[i]);
        proof {
            assert(values@.take(i as int + 1) =~= values@.take(i as int).push(values@[i as int]));
        }
        i = i + 1;
    }
    proof {
        assert(values@.take(n as int) =~= values@);
    }
    builder.finalize()
}

/// The nested rows all have the given length.
pub open spec fn rows_have_arity(rows: Seq<Seq<u64>>, arity: int) -> bool {
    forall|i: int| 0 <= i < rows.len() ==> (#[trigger] rows[i]).len() == arity
}

/// The rows are in strict lexicographic order.
pub open spec fn rows_sorted_lex(rows: Seq<Seq<u64>>) -> bool {
    forall|i: int, j: int| 0 <= i < j < rows.len()
        ==> lex_less(#[trigger] rows[i], #[trigger] rows[j])
}

/// A strict lexicographic step pins the first differing position.
proof fn lemma_lex_first_diff(a: Seq<u64>, b: Seq<u64>, c: int)
    requires
        a.len() == b.len(),
        lex_less(a, b),
        0 <= c <= a.len(),
        forall|x: int| 0 <= x < c ==> a[x] == b[x],
        c < a.len() ==> a[c] != b[c],
    ensures
        c < a.len(),
        a[c] < b[c],
    decreases c,
{
    if c == 0 {
        if a.len() > 0 && a[0] == b[0] {
            assert(false);
        }
    } else {
        assert(a[0] == b[0]);
        assert(lex_less(a.skip(1), b.skip(1)));
        lemma_lex_first_diff(a.skip(1), b.skip(1), c - 1);
        assert(a.skip(1)[c - 1] == a[c as int]);
    }
}

/// The end of parent `j`'s children at layer `l` of a partly built
/// trie: the recorded boundary, or the whole remaining suffix of the
/// next layer for a parent whose boundary is not recorded yet.
spec fn bld_upper(cols: Seq<Vec<u64>>, offs: Seq<Vec<usize>>, l: int, j: int) -> int {
    if j + 1 < offs[l]@.len() {
        offs[l]@[j + 1] as int
    } else {
        cols[l + 1]@.len() as int
    }
}

/// A path through a partly built trie whose layer values spell `row`:
/// one index per layer, each inside the (possibly still open) child
/// range of its parent.
spec fn bld_path_ok(
    cols: Seq<Vec<u64>>,
    offs: Seq<Vec<usize>>,
    row: Seq<u64>,
    p: Seq<int>,
) -> bool {
    let arity = cols.len() as int;
    &&& p.len() == arity
    &&& row.len() == arity
    &&& forall|l: int| 0 <= l < arity
        ==> 0 <= #[trigger] p[l] < cols[l]@.len() && cols[l]@[p[l]] == row[l]
    &&& forall|l: int| 0 <= l < arity - 1
        ==> p[l] < offs[l]@.len()
            && offs[l]@[#[trigger] p[l]] <= p[l + 1] < bld_upper(cols, offs, l, p[l])
}

/// The path of the row just appended to a partly built trie: the shared
/// prefix keeps the previous row's indices, the fresh suffix from the
/// change layer `c` on sits at the end of each layer.
spec fn new_path(cols: Seq<Vec<u64>>, prev_path: Seq<int>, c: int) -> Seq<int> {
    Seq::new(cols.len(), |l: int| if l < c {
        prev_path[l]
    } else {
        (cols[l])@.len() - 1
    })
}

/// Appending a row whose first change from the previous (rightmost) row
/// is at layer `c` leaves a valid rightmost path spelling that row.
proof fn lemma_new_row_path(
    cols: Seq<Vec<u64>>,
    offs: Seq<Vec<usize>>,
    prev_row: Seq<u64>,
    prev_path: Seq<int>,
    row: Seq<u64>,
    c: int,
)
    requires
        cols.len() >= 1,
        offs.len() == cols.len() - 1,
        0 <= c < cols.len(),
        row.len() == cols.len(),
        c > 0 ==> prev_row.len() == cols.len(),
        c > 0 ==> bld_path_ok(cols, offs, prev_row, prev_path),
        c > 0 ==> forall|l: int| 0 <= l < c ==> prev_row[l] == row[l],
        c > 0 ==> forall|l: int| 0 <= l < c
            ==> #[trigger] prev_path[l] == (cols[l])@.len() - 1,
        forall|l: int| 0 <= l < cols.len() ==> (#[trigger] cols[l])@.len() > 0,
        forall|l: int| c <= l < cols.len() ==> (#[trigger] cols[l])@.last() == row[l],
        forall|l: int| 0 <= l < cols.len() - 1
            ==> (#[trigger] offs[l])@.len() == (cols[l])@.len(),
        forall|l: int| 0 <= l < cols.len() - 1
            ==> (#[trigger] offs[l])@.last() < (cols[l + 1])@.len(),
    ensures
        bld_path_ok(cols, offs, row, new_path(cols, prev_path, c)),
        forall|l: int| 0 <= l < cols.len()
            ==> #[trigger] new_path(cols, prev_path, c)[l] == (cols[l])@.len() - 1,
{
    let arity = cols.len() as int;
    let newp = new_path(cols, prev_path, c);
    assert forall|l: int| 0 <= l < arity implies
        0 <= #[trigger] newp[l] < (cols[l])@.len() && (cols[l])@[newp[l]] == row[l] by {
        if l < c {
            assert(newp[l] == prev_path[l]);
            assert((cols[l])@[newp[l]] == prev_row[l]);
        } else {
            assert((cols[l])@.last() == row[l]);
        }
    }
    assert forall|l: int| 0 <= l < arity - 1 implies
        newp[l] < (offs[l])@.len()
            && (offs[l])@[#[trigger] newp[l]] <= newp[l + 1]
            && newp[l + 1] < bld_upper(cols, offs, l, newp[l]) by {
        if l + 1 < c {
            assert(newp[l] == prev_path[l]);
            assert(newp[l + 1] == prev_path[l + 1]);
        } else {
            // the parent is the last value of its layer, still open, and
            // the recorded boundary keeps below the appended child
            if l < c {
                assert(newp[l] == prev_path[l]);
            }
            assert(newp[l] == (cols[l])@.len() - 1);
            assert(newp[l] + 1 == (offs[l])@.len());
            assert(bld_upper(cols, offs, l, newp[l]) == (cols[l + 1])@.len());
            assert(newp[l + 1] == (cols[l + 1])@.len() - 1);
            assert((offs[l])@[newp[l]] == (offs[l])@.last());
            assert((offs[l])@.last() < (cols[l + 1])@.len());
        }
    }
}

/// Appending one value to a layer moves no recorded path: indices,
/// values and lower bounds stand, and open bounds only grow.
proof fn lemma_paths_survive_value_push(
    pre_cols: Seq<Vec<u64>>,
    cols: Seq<Vec<u64>>,
    offs: Seq<Vec<usize>>,
    row: Seq<u64>,
    p: Seq<int>,
    l2: int,
    value: u64,
)
    requires
        cols.len() == pre_cols.len(),
        offs.len() == cols.len() - 1,
        0 <= l2 < cols.len(),
        forall|ll: int| 0 <= ll < cols.len() && ll != l2
            ==> #[trigger] cols[ll] == pre_cols[ll],
        (cols[l2])@ == pre_cols[l2]@.push(value),
        bld_path_ok(pre_cols, offs, row, p),
    ensures
        bld_path_ok(cols, offs, row, p),
{
    let arity = cols.len() as int;
    assert forall|ll: int| 0 <= ll < arity implies
        0 <= #[trigger] p[ll] < (cols[ll])@.len()
            && (cols[ll])@[p[ll]] == row[ll] by {
        if ll == l2 {
            assert(p[ll] < pre_cols[ll]@.len());
            assert((cols[ll])@[p[ll]] == pre_cols[ll]@[p[ll]]);
        } else {
            assert(cols[ll] == pre_cols[ll]);
        }
    }
    assert forall|ll: int| 0 <= ll < arity - 1 implies
        p[ll] < (offs[ll])@.len()
            && (offs[ll])@[#[trigger] p[ll]] <= p[ll + 1]
            && p[ll + 1] < bld_upper(cols, offs, ll, p[ll]) by {
        if ll + 1 == l2 {
            if p[ll] + 1 < (offs[ll])@.len() {
                assert(bld_upper(cols, offs, ll, p[ll])
                    == bld_upper(pre_cols, offs, ll, p[ll]));
            } else {
                assert(bld_upper(pre_cols, offs, ll, p[ll])
                    == pre_cols[ll + 1]@.len());
                assert(bld_upper(cols, offs, ll, p[ll])
                    == (cols[ll + 1])@.len());
                assert((cols[ll + 1])@.len() == pre_cols[ll + 1]@.len() + 1);
            }
        } else {
            assert(cols[ll + 1] == pre_cols[ll + 1]);
        }
    }
}

/// Recording a parent's boundary at exactly its current open bound
/// moves no recorded path.
proof fn lemma_paths_survive_boundary_push(
    cols: Seq<Vec<u64>>,
    pre_offs: Seq<Vec<usize>>,
    offs: Seq<Vec<usize>>,
    row: Seq<u64>,
    p: Seq<int>,
    l: int,
    boundary: usize,
)
    requires
        offs.len() == pre_offs.len(),
        cols.len() == offs.len() + 1,
        0 <= l < offs.len(),
        forall|ll: int| 0 <= ll < offs.len() && ll != l
            ==> #[trigger] offs[ll] == pre_offs[ll],
        (offs[l])@ == pre_offs[l]@.push(boundary),
        boundary == (cols[l + 1])@.len(),
        bld_path_ok(cols, pre_offs, row, p),
    ensures
        bld_path_ok(cols, offs, row, p),
{
    let arity = cols.len() as int;
    assert forall|ll: int| 0 <= ll < arity - 1 implies
        p[ll] < (offs[ll])@.len()
            && (offs[ll])@[#[trigger] p[ll]] <= p[ll + 1]
            && p[ll + 1] < bld_upper(cols, offs, ll, p[ll]) by {
        if ll == l {
            assert(p[ll] < pre_offs[ll]@.len());
            assert((offs[ll])@[p[ll]] == pre_offs[ll]@[p[ll]]);
            if p[ll] + 1 < pre_offs[ll]@.len() {
                assert((offs[ll])@[p[ll] + 1] == pre_offs[ll]@[p[ll] + 1]);
            } else {
                assert((offs[ll])@[p[ll] + 1] == boundary);
                assert(bld_upper(cols, pre_offs, ll, p[ll])
                    == (cols[ll + 1])@.len());
            }
        } else {
            assert(offs[ll] == pre_offs[ll]);
        }
    }
}

/// A finished trie whose layers and closed boundaries came from the
/// builder enumerates exactly the rows its recorded paths spell.
#[verifier::rlimit(100)]
proof fn lemma_built_trie_enumerates(
    t: Trie,
    rv: Seq<Seq<u64>>,
    paths: Seq<Seq<int>>,
    cols_final: Seq<Vec<u64>>,
    offs_final: Seq<Vec<usize>>,
)
    requires
        t.wf(),
        t.spec_arity() == cols_final.len(),
        cols_final.len() >= 1,
        offs_final.len() == cols_final.len() - 1,
        forall|l: int| 0 <= l < cols_final.len()
            ==> #[trigger] t.layer(l) == (cols_final[l])@,
        forall|l: int| 0 <= l < cols_final.len() - 1
            ==> #[trigger] t.offsets(l) == (offs_final[l])@,
        forall|l: int| 0 <= l < cols_final.len() - 1
            ==> (#[trigger] offs_final[l])@.len() == (cols_final[l])@.len() + 1,
        paths.len() == rv.len(),
        t.layer(t.spec_arity() - 1).len() == rv.len(),
        forall|x: int| 0 <= x < rv.len()
            ==> bld_path_ok(cols_final, offs_final, rv[x], #[trigger] paths[x]),
        rows_sorted_lex(rv),
    ensures
        trie_rows(t) == rv,
{
    let arity = cols_final.len() as int;
    let nrows = rv.len() as int;
    // the recorded paths carry over to the finished trie, whose parents
    // are all closed
    assert forall|x: int| 0 <= x < nrows implies
        trie_path_ok(t, rv[x], paths[x]) by {
        let p = paths[x];
        assert(bld_path_ok(cols_final, offs_final, rv[x], p));
        assert forall|l: int| 0 <= l < arity implies
            0 <= #[trigger] p[l] < t.layer(l).len()
                && t.layer(l)[p[l]] == rv[x][l] by {
            assert(t.layer(l) == (cols_final[l])@);
        }
        assert forall|l: int| 0 <= l < arity - 1 implies
            t.offsets(l)[#[trigger] p[l]] <= p[l + 1]
                < t.offsets(l)[p[l] + 1] by {
            assert(t.offsets(l) == (offs_final[l])@);
            assert((offs_final[l])@.len() == (cols_final[l])@.len() + 1);
            assert(p[l] + 1 < (offs_final[l])@.len());
            assert(bld_upper(cols_final, offs_final, l, p[l])
                == (offs_final[l])@[p[l] + 1]);
        }
    }
    // the enumeration is sorted, one tuple per leaf, and holds every
    // input row: with equal counts it is exactly the input
    lemma_trie_rows_lex_order(t);
    lemma_subtrie_count(t, 0, 0, t.layer(0).len() as int);
    lemma_leaf_at_zero(t, 0);
    lemma_leaf_at_full(t, 0);
    assert(trie_rows(t).len() == t.layer(arity - 1).len());
    assert(trie_rows(t).len() == nrows);
    assert forall|x: int| 0 <= x < nrows implies
        #[trigger] trie_rows(t).contains(rv[x]) by {
        lemma_path_row_enumerated(t, 0, 0, t.layer(0).len() as int, rv[x], paths[x]);
        assert(rv[x].skip(0) =~= rv[x]);
    }
    lemma_sorted_contained_equal(rv, trie_rows(t));
}

impl Trie {
    /// Build a trie from tuples of the given arity in strict
    /// lexicographic order: one leaf per tuple, shared prefixes merged,
    /// and the child ranges recorded in the interval maps; the built
    /// trie enumerates exactly the given tuples.
    #[verifier::rlimit(100)]
    pub fn from_rows(rows: &Vec<Vec<u64>>, arity: usize) -> (r: Trie)
        requires
            arity >= 1,
            rows_have_arity(rows.deep_view(), arity as int),
            rows_sorted_lex(rows.deep_view()),
        ensures
            r.wf(),
            r.spec_arity() == arity,
            r.layer(arity - 1).len() == rows@.len(),
            trie_rows(r) == rows.deep_view(),
    {
        let ghost rv = rows.deep_view();
        let ghost mut paths: Seq<Seq<int>> = Seq::empty();
        let mut cols: Vec<Vec<u64>> = Vec::new();
        let mut offs: Vec<Vec<usize>> = Vec::new();
        let mut l0: usize = 0;
        while l0 < arity
            invariant
                l0 <= arity,
                cols@.len() == l0,
                forall|l: int| 0 <= l < l0 ==> (#[trigger] cols@[l])@.len() == 0,
            decreases arity - l0,
        {
            cols.push(Vec::new());
            l0 = l0 + 1;
        }
        let mut l1: usize = 0;
        while l1 < arity - 1
            invariant
                arity >= 1,
                l1 <= arity - 1,
                offs@.len() == l1,
                forall|l: int| 0 <= l < l1 ==> (#[trigger] offs@[l])@ == seq![0usize],
            decreases arity - l1,
        {
            let mut first: Vec<usize> = Vec::new();
            first.push(0);
            proof {
                assert(first@ =~= seq![0usize]);
            }
            offs.push(first);
            l1 = l1 + 1;
        }

        let nrows = rows.len();
        let mut r: usize = 0;
        while r < nrows
            invariant
                arity >= 1,
                nrows == rows@.len(),
                r <= nrows,
                rv == rows.deep_view(),
                rows_have_arity(rv, arity as int),
                rows_sorted_lex(rv),
                cols@.len() == arity,
                offs@.len() == arity - 1,
                // one recorded path per finished row, the last rightmost
                paths.len() == r,
                forall|x: int| 0 <= x < r
                    ==> bld_path_ok(cols@, offs@, rv[x], #[trigger] paths[x]),
                r > 0 ==> forall|l: int| 0 <= l < arity
                    ==> #[trigger] paths[r - 1][l] == (cols@[l])@.len() - 1,
                // boundary counts
                forall|l: int| 0 <= l < arity - 1 ==> (#[trigger] offs@[l])@.len()
                    == (if (cols@[l])@.len() == 0 { 1int } else { (cols@[l])@.len() as int }),
                forall|l: int| 0 <= l < arity - 1 ==> (#[trigger] offs@[l])@[0] == 0,
                forall|l: int, a: int, b: int|
                    #![trigger (offs@[l])@[a], (offs@[l])@[b]]
                    0 <= l < arity - 1 && 0 <= a < b < (offs@[l])@.len()
                    ==> (offs@[l])@[a] < (offs@[l])@[b],
                // the open parent's range keeps growing
                forall|l: int| 0 <= l < arity - 1
                    ==> (#[trigger] offs@[l])@.last() <= (cols@[l + 1])@.len(),
                forall|l: int| 0 <= l < arity - 1 && (cols@[l])@.len() > 0
                    ==> (#[trigger] offs@[l])@.last() < (cols@[l + 1])@.len(),
                // the rightmost path equals the previous row
                r == 0 ==> forall|l: int| 0 <= l < arity ==> (#[trigger] cols@[l])@.len() == 0,
                r > 0 ==> forall|l: int| 0 <= l < arity
                    ==> (#[trigger] cols@[l])@.len() > 0
                        && (cols@[l])@.last() == rv[r - 1][l],
                // the leaf column holds one value per row
                (cols@[arity - 1])@.len() == r,
                // sortedness: closed ranges and the open range of each layer
                forall|a: int, b: int|
                    #![trigger (cols@[0])@[a], (cols@[0])@[b]]
                    0 <= a < b < (cols@[0])@.len() ==> (cols@[0])@[a] < (cols@[0])@[b],
                forall|l: int, j: int, a: int, b: int|
                    #![trigger (offs@[l])@[j], (cols@[l + 1])@[a], (cols@[l + 1])@[b]]
                    0 <= l < arity - 1 && 0 <= j + 1 < (offs@[l])@.len()
                        && (offs@[l])@[j] <= a < b < (offs@[l])@[j + 1]
                    ==> (cols@[l + 1])@[a] < (cols@[l + 1])@[b],
                forall|l: int, a: int, b: int|
                    #![trigger (cols@[l + 1])@[a], (cols@[l + 1])@[b]]
                    0 <= l < arity - 1 && (offs@[l])@.last() <= a < b < (cols@[l + 1])@.len()
                    ==> (cols@[l + 1])@[a] < (cols@[l + 1])@[b],
            decreases nrows - r,
        {
            let row = &rows[r];
            proof {
                assert(rv[r as int].len() == arity);
                assert(rv[r as int] == row.deep_view());
            }
            // the first layer where this row differs from the previous one
            let mut c: usize = 0;
            if r > 0 {
                let prev = &rows[r - 1];
                proof {
                    assert(rv[r - 1] == prev.deep_view());
                    assert(rv[r - 1].len() == arity);
                }
                while c < arity
                    invariant
                        arity >= 1,
                        c <= arity,
                        prev@.len() == arity,
                        row@.len() == arity,
                        prev.deep_view() == rv[r - 1],
                        row.deep_view() == rv[r as int],
                        0 < r < nrows,
                        nrows == rows@.len(),
                        rows_sorted_lex(rv),
                        rows_have_arity(rv, arity as int),
                        rv == rows.deep_view(),
                        forall|x: int| 0 <= x < c ==> rv[r - 1][x] == rv[r as int][x],
                    ensures
                        c <= arity,
                        c < arity ==> rv[r - 1][c as int] != rv[r as int][c as int],
                        forall|x: int| 0 <= x < c ==> rv[r - 1][x] == rv[r as int][x],
                    decreases arity - c,
                {
                    if prev[c] != row[c] {
                        proof {
                            assert(rv[r - 1][c as int] == prev@[c as int]);
                            assert(rv[r as int][c as int] == row@[c as int]);
                        }
                        break;
                    }
                    proof {
                        assert(rv[r - 1][c as int] == prev@[c as int]);
                        assert(rv[r as int][c as int] == row@[c as int]);
                    }
                    c = c + 1;
                }
                proof {
                    if c == arity {
                        lemma_lex_first_diff(rv[r - 1], rv[r as int], arity as int);
                        assert(false);
                    }
                    lemma_lex_first_diff(rv[r - 1], rv[r as int], c as int);
                    assert(rv[r - 1][c as int] < rv[r as int][c as int]);
                }
            }
            // close the parents that a new value at layer `c` supersedes
            let mut l: usize = c;
            while l < arity - 1
                invariant
                    arity >= 1,
                    c <= l,
                    l <= arity,
                    cols@.len() == arity,
                    offs@.len() == arity - 1,
                    nrows == rows@.len(),
                    r < nrows,
                    rv == rows.deep_view(),
                    rows_have_arity(rv, arity as int),
                    rows_sorted_lex(rv),
                    paths.len() == r,
                    forall|x: int| 0 <= x < r
                        ==> bld_path_ok(cols@, offs@, rv[x], #[trigger] paths[x]),
                    r > 0 ==> forall|ll: int| 0 <= ll < arity
                        ==> #[trigger] paths[r - 1][ll] == (cols@[ll])@.len() - 1,
                    r == 0 ==> forall|ll: int| 0 <= ll < arity
                        ==> (#[trigger] cols@[ll])@.len() == 0,
                    r > 0 ==> forall|ll: int| 0 <= ll < arity
                        ==> (#[trigger] cols@[ll])@.len() > 0
                            && (cols@[ll])@.last() == rv[r - 1][ll],
                    (cols@[arity - 1])@.len() == r,
                    forall|ll: int| 0 <= ll < arity - 1 ==> (#[trigger] offs@[ll])@.len()
                        == (if (cols@[ll])@.len() == 0 { 1int }
                            else { (cols@[ll])@.len() as int })
                            + (if c <= ll < l && (cols@[ll])@.len() > 0 { 1int }
                               else { 0int }),
                    forall|ll: int| 0 <= ll < arity - 1 ==> (#[trigger] offs@[ll])@[0] == 0,
                    forall|ll: int, a: int, b: int|
                        #![trigger (offs@[ll])@[a], (offs@[ll])@[b]]
                        0 <= ll < arity - 1 && 0 <= a < b < (offs@[ll])@.len()
                        ==> (offs@[ll])@[a] < (offs@[ll])@[b],
                    forall|ll: int| 0 <= ll < arity - 1
                        ==> (#[trigger] offs@[ll])@.last() <= (cols@[ll + 1])@.len(),
                    forall|ll: int| 0 <= ll < arity - 1 && (cols@[ll])@.len() > 0
                        && !(c <= ll < l)
                        ==> (#[trigger] offs@[ll])@.last() < (cols@[ll + 1])@.len(),
                    forall|ll: int| 0 <= ll < arity - 1 && (c <= ll < l)
                        && (cols@[ll])@.len() > 0
                        ==> (#[trigger] offs@[ll])@.last() == (cols@[ll + 1])@.len(),
                    forall|a: int, b: int|
                        #![trigger (cols@[0])@[a], (cols@[0])@[b]]
                        0 <= a < b < (cols@[0])@.len() ==> (cols@[0])@[a] < (cols@[0])@[b],
                    forall|ll: int, j: int, a: int, b: int|
                        #![trigger (offs@[ll])@[j], (cols@[ll + 1])@[a], (cols@[ll + 1])@[b]]
                        0 <= ll < arity - 1 && 0 <= j + 1 < (offs@[ll])@.len()
                            && (offs@[ll])@[j] <= a < b < (offs@[ll])@[j + 1]
                        ==> (cols@[ll + 1])@[a] < (cols@[ll + 1])@[b],
                    forall|ll: int, a: int, b: int|
                        #![trigger (cols@[ll + 1])@[a], (cols@[ll + 1])@[b]]
                        0 <= ll < arity - 1
                            && (offs@[ll])@.last() <= a < b < (cols@[ll + 1])@.len()
                        ==> (cols@[ll + 1])@[a] < (cols@[ll + 1])@[b],
                decreases arity - l,
            {
                if r > 0 {
                    let boundary = cols[l + 1].len();
                    let ghost pre_offs = offs@;
                    offs[l].push(boundary);
                    proof {
                        assert(offs@ =~= pre_offs.update(l as int, offs@[l as int]));
                        assert(offs@[l as int]@ == pre_offs[l as int]@.push(boundary));
                        assert forall|x: int| 0 <= x < r implies
                            bld_path_ok(cols@, offs@, rv[x], #[trigger] paths[x]) by {
                            lemma_paths_survive_boundary_push(
                                cols@, pre_offs, offs@, rv[x], paths[x],
                                l as int, boundary);
                        }
                    }
                }
                l = l + 1;
            }
            // append the new suffix of the row
            let mut l2: usize = c;
            while l2 < arity
                invariant
                    arity >= 1,
                    c <= l2 <= arity,
                    cols@.len() == arity,
                    offs@.len() == arity - 1,
                    nrows == rows@.len(),
                    r < nrows,
                    rv == rows.deep_view(),
                    rows_have_arity(rv, arity as int),
                    rows_sorted_lex(rv),
                    row@.len() == arity,
                    row.deep_view() == rv[r as int],
                    r > 0 ==> c < arity && rv[r - 1][c as int] < rv[r as int][c as int],
                    r > 0 ==> forall|x: int| 0 <= x < c ==> rv[r - 1][x] == rv[r as int][x],
                    r == 0 ==> c == 0,
                    paths.len() == r,
                    forall|x: int| 0 <= x < r
                        ==> bld_path_ok(cols@, offs@, rv[x], #[trigger] paths[x]),
                    r > 0 ==> forall|ll: int| 0 <= ll < c
                        ==> #[trigger] paths[r - 1][ll] == (cols@[ll])@.len() - 1,
                    // layers below l2 already updated, the rest untouched
                    forall|ll: int| c <= ll < l2
                        ==> (#[trigger] cols@[ll])@.len() > 0
                            && (cols@[ll])@.last() == rv[r as int][ll],
                    forall|ll: int| l2 <= ll < arity && r > 0
                        ==> (#[trigger] cols@[ll])@.len() > 0
                            && (cols@[ll])@.last() == rv[r - 1][ll],
                    forall|ll: int| l2 <= ll < arity && r == 0
                        ==> (#[trigger] cols@[ll])@.len() == 0,
                    forall|ll: int| 0 <= ll < c && r > 0
                        ==> (#[trigger] cols@[ll])@.len() > 0
                            && (cols@[ll])@.last() == rv[r as int][ll],
                    (cols@[arity - 1])@.len()
                        == (if l2 == arity { r + 1int } else { r as int }),
                    forall|ll: int| 0 <= ll < arity - 1 ==> (#[trigger] offs@[ll])@.len()
                        == (if (cols@[ll])@.len() == 0 { 1int }
                            else { (cols@[ll])@.len() as int })
                            + (if c <= ll && ll < l2 { 0int }
                               else if c <= ll && (cols@[ll])@.len() > 0 { 1int }
                               else { 0int }),
                    l2 > c ==> l2 >= 1,
                    forall|ll: int| 0 <= ll < arity - 1 ==> (#[trigger] offs@[ll])@[0] == 0,
                    forall|ll: int, a: int, b: int|
                        #![trigger (offs@[ll])@[a], (offs@[ll])@[b]]
                        0 <= ll < arity - 1 && 0 <= a < b < (offs@[ll])@.len()
                        ==> (offs@[ll])@[a] < (offs@[ll])@[b],
                    forall|ll: int| 0 <= ll < arity - 1
                        ==> (#[trigger] offs@[ll])@.last() <= (cols@[ll + 1])@.len(),
                    forall|ll: int| 0 <= ll < arity - 1 && (cols@[ll])@.len() > 0
                        && !(c <= ll && ll >= l2 - 1)
                        ==> (#[trigger] offs@[ll])@.last() < (cols@[ll + 1])@.len(),
                    forall|ll: int| 0 <= ll < arity - 1 && c <= ll && ll >= l2 - 1
                        && (cols@[ll])@.len() > 0
                        ==> (#[trigger] offs@[ll])@.last() == (cols@[ll + 1])@.len(),
                    forall|a: int, b: int|
                        #![trigger (cols@[0])@[a], (cols@[0])@[b]]
                        0 <= a < b < (cols@[0])@.len() ==> (cols@[0])@[a] < (cols@[0])@[b],
                    forall|ll: int, j: int, a: int, b: int|
                        #![trigger (offs@[ll])@[j], (cols@[ll + 1])@[a], (cols@[ll + 1])@[b]]
                        0 <= ll < arity - 1 && 0 <= j + 1 < (offs@[ll])@.len()
                            && (offs@[ll])@[j] <= a < b < (offs@[ll])@[j + 1]
                        ==> (cols@[ll + 1])@[a] < (cols@[ll + 1])@[b],
                    forall|ll: int, a: int, b: int|
                        #![trigger (cols@[ll + 1])@[a], (cols@[ll + 1])@[b]]
                        0 <= ll < arity - 1
                            && (offs@[ll])@.last() <= a < b < (cols@[ll + 1])@.len()
                        ==> (cols@[ll + 1])@[a] < (cols@[ll + 1])@[b],
                decreases arity - l2,
            {
                let value = row[l2];
                let ghost pre_cols = cols@;
                proof {
                    assert(rv[r as int][l2 as int] == row@[l2 as int]);
                }
                cols[l2].push(value);
                proof {
                    assert(cols@ =~= pre_cols.update(l2 as int, cols@[l2 as int]));
                    assert(cols@[l2 as int]@ == pre_cols[l2 as int]@.push(value));
                    assert forall|x: int| 0 <= x < r implies
                        bld_path_ok(cols@, offs@, rv[x], #[trigger] paths[x]) by {
                        lemma_paths_survive_value_push(
                            pre_cols, cols@, offs@, rv[x], paths[x],
                            l2 as int, value);
                    }
                    // the freshly extended open range stays sorted: either it
                    // was empty (a new parent just opened it) or the new value
                    // tops its previous last element
                    if l2 >= 1 {
                        let ll = l2 as int - 1;
                        assert forall|a: int, b: int|
                            #![trigger (cols@[ll + 1])@[a], (cols@[ll + 1])@[b]]
                            (offs@[ll])@.last() <= a < b < (cols@[ll + 1])@.len()
                            implies (cols@[ll + 1])@[a] < (cols@[ll + 1])@[b] by {
                            let oldlen = pre_cols[ll + 1]@.len() as int;
                            if b < oldlen {
                                assert(pre_cols[ll + 1]@[a] < pre_cols[ll + 1]@[b]);
                            } else if l2 as int > c {
                                // a new parent just opened this range: it was
                                // empty, so only the new element is in it
                                assert((offs@[ll])@.last() == oldlen);
                                assert(false);
                            } else {
                                // the new value extends the open range of the
                                // change layer and tops its last element
                                assert(b == oldlen);
                                assert(l2 as int == c && c >= 1);
                                assert(r > 0);
                                assert(cols@[ll + 1]@[b] == value);
                                assert(pre_cols[ll + 1]@.last() == rv[r - 1][l2 as int]);
                                assert(rv[r - 1][l2 as int] < value);
                                if a < oldlen - 1 {
                                    assert(pre_cols[ll + 1]@[a]
                                        < pre_cols[ll + 1]@[oldlen - 1]);
                                }
                            }
                        }
                    }
                }
                l2 = l2 + 1;
            }
            // record the finished row's path
            proof {
                let prevr: Seq<u64> = if r > 0 { rv[r - 1] } else { rv[r as int] };
                let prevp: Seq<int> = if r > 0 { paths[r - 1] } else { Seq::empty() };
                assert(rv[r as int].len() == arity);
                lemma_new_row_path(cols@, offs@, prevr, prevp, rv[r as int], c as int);
                paths = paths.push(new_path(cols@, prevp, c as int));
            }
            r = r + 1;
        }

        // close the last parents (absent rows leave the single zero boundary)
        if nrows > 0 {
            let mut l3: usize = 0;
            while l3 < arity - 1
                invariant
                    arity >= 1,
                    nrows >= 1,
                    l3 <= arity,
                    cols@.len() == arity,
                    offs@.len() == arity - 1,
                    rv == rows.deep_view(),
                    paths.len() == nrows,
                    forall|x: int| 0 <= x < nrows
                        ==> bld_path_ok(cols@, offs@, rv[x], #[trigger] paths[x]),
                    forall|ll: int| 0 <= ll < arity ==> (#[trigger] cols@[ll])@.len() > 0,
                    (cols@[arity - 1])@.len() == nrows,
                    forall|ll: int| 0 <= ll < arity - 1 ==> (#[trigger] offs@[ll])@.len()
                        == (cols@[ll])@.len() + (if ll < l3 { 1int } else { 0int }),
                    forall|ll: int| 0 <= ll < arity - 1 ==> (#[trigger] offs@[ll])@[0] == 0,
                    forall|ll: int, a: int, b: int|
                        #![trigger (offs@[ll])@[a], (offs@[ll])@[b]]
                        0 <= ll < arity - 1 && 0 <= a < b < (offs@[ll])@.len()
                        ==> (offs@[ll])@[a] < (offs@[ll])@[b],
                    forall|ll: int| 0 <= ll < arity - 1
                        ==> (#[trigger] offs@[ll])@.last() <= (cols@[ll + 1])@.len(),
                    forall|ll: int| 0 <= ll < arity - 1 && ll >= l3
                        ==> (#[trigger] offs@[ll])@.last() < (cols@[ll + 1])@.len(),
                    forall|ll: int| 0 <= ll < arity - 1 && ll < l3
                        ==> (#[trigger] offs@[ll])@.last() == (cols@[ll + 1])@.len(),
                    forall|a: int, b: int|
                        #![trigger (cols@[0])@[a], (cols@[0])@[b]]
                        0 <= a < b < (cols@[0])@.len() ==> (cols@[0])@[a] < (cols@[0])@[b],
                    forall|ll: int, j: int, a: int, b: int|
                        #![trigger (offs@[ll])@[j], (cols@[ll + 1])@[a], (cols@[ll + 1])@[b]]
                        0 <= ll < arity - 1 && 0 <= j + 1 < (offs@[ll])@.len()
                            && (offs@[ll])@[j] <= a < b < (offs@[ll])@[j + 1]
                        ==> (cols@[ll + 1])@[a] < (cols@[ll + 1])@[b],
                    forall|ll: int, a: int, b: int|
                        #![trigger (cols@[ll + 1])@[a], (cols@[ll + 1])@[b]]
                        0 <= ll < arity - 1
                            && (offs@[ll])@.last() <= a < b < (cols@[ll + 1])@.len()
                        ==> (cols@[ll + 1])@[a] < (cols@[ll + 1])@[b],
                decreases arity - l3,
            {
                let boundary = cols[l3 + 1].len();
                let ghost pre_offs = offs@;
                offs[l3].push(boundary);
                proof {
                    assert(offs@ =~= pre_offs.update(l3 as int, offs@[l3 as int]));
                    assert(offs@[l3 as int]@ == pre_offs[l3 as int]@.push(boundary));
                    assert forall|x: int| 0 <= x < nrows implies
                        bld_path_ok(cols@, offs@, rv[x], #[trigger] paths[x]) by {
                        lemma_paths_survive_boundary_push(
                            cols@, pre_offs, offs@, rv[x], paths[x],
                            l3 as int, boundary);
                    }
                }
                l3 = l3 + 1;
            }
        }

        // wrap the accumulators in storages
        let mut columns: Vec<ColumnT> = Vec::new();
        let mut k: usize = 0;
        let ghost cols_final = cols@;
        proof {
            assert(forall|x: int| 0 <= x < nrows
                ==> bld_path_ok(cols_final, offs@, rv[x], #[trigger] paths[x]));
        }
        while k < arity
            invariant
                arity >= 1,
                k <= arity,
                cols@.len() == arity,
                forall|ll: int| k <= ll < arity
                    ==> (#[trigger] cols@[ll])@ == (cols_final[ll])@,
                columns@.len() == k,
                forall|ll: int| 0 <= ll < k
                    ==> (#[trigger] columns@[ll]).wf()
                        && columns@[ll]@ == (cols_final[ll])@,
            decreases arity - k,
        {
            let mut taken: Vec<u64> = Vec::new();
            std::mem::swap(&mut taken, &mut cols[k]);
            proof {
                assert(taken@ == cols_final[k as int]@);
            }
            let col = column_from_values(taken);
            columns.push(col);
            k = k + 1;
        }
        let mut intervals: Vec<IntervalColumn> = Vec::new();
        let mut k2: usize = 0;
        let ghost offs_final = offs@;
        proof {
            assert(forall|x: int| 0 <= x < nrows
                ==> bld_path_ok(cols_final, offs_final, rv[x], #[trigger] paths[x]));
            assert(forall|l: int| 0 <= l < arity - 1
                ==> (#[trigger] offs_final[l])@.len() == (cols_final[l])@.len() + 1);
        }
        while k2 < arity - 1
            invariant
                arity >= 1,
                k2 <= arity - 1,
                offs@.len() == arity - 1,
                intervals@.len() == k2,
                forall|ll: int| 0 <= ll < k2
                    ==> (#[trigger] intervals@[ll])@ == (offs_final[ll])@,
                forall|ll: int| k2 <= ll < arity - 1
                    ==> (#[trigger] offs@[ll])@ == (offs_final[ll])@,
            decreases arity - k2,
        {
            let mut taken: Vec<usize> = Vec::new();
            std::mem::swap(&mut taken, &mut offs[k2]);
            intervals.push(IntervalColumn::new(taken));
            k2 = k2 + 1;
        }
        let t = Trie { columns, intervals };
        proof {
            assert(t.wf());
            assert forall|l: int| 0 <= l < arity implies
                #[trigger] t.layer(l) == (cols_final[l])@ by {}
            assert forall|l: int| 0 <= l < arity - 1 implies
                #[trigger] t.offsets(l) == (offs_final[l])@ by {}
            assert(rv.len() == nrows);
            lemma_built_trie_enumerates(t, rv, paths, cols_final, offs_final);
        }
        t
    }
}

/// Collect the tuples of the subtrie at layer `l` over the index range
/// `[lo, hi)`, in depth-first order.
fn collect_subtrie(t: &Trie, l: usize, lo: usize, hi: usize) -> (r: Vec<Vec<u64>>)
    requires
        t.wf(),
        l < t.spec_arity(),
        lo <= hi,
        hi <= t.layer(l as int).len(),
    ensures
        r.deep_view() == subtrie_rows(*t, l as int, lo as int, hi as int),
    decreases t.spec_arity() - l, hi - lo,
{
    let mut out: Vec<Vec<u64>> = Vec::new();
    let arity = t.columns.len();
    if lo >= hi {
        proof {
            assert(out.deep_view() =~~= subtrie_rows(*t, l as int, lo as int, hi as int));
        }
        return out;
    }
    let v = t.columns[l].get(lo);
    let ghost block = if l as int == t.spec_arity() - 1 {
        seq![seq![v]]
    } else {
        subtrie_rows(*t, l as int + 1,
            t.offsets(l as int)[lo as int] as int,
            t.offsets(l as int)[lo as int + 1] as int)
            .map_values(|row: Seq<u64>| seq![v] + row)
    };
    if l + 1 == arity {
        let mut single: Vec<u64> = Vec::new();
        single.push(v);
        out.push(single);
        proof {
            assert(out.deep_view() =~~= block);
        }
    } else {
        proof {
            assert(lo + 1 < t.offsets(l as int).len());
        }
        let (clo, chi) = t.intervals[l].bounds(lo);
        proof {
            let last = t.layer(l as int).len() as int;
            assert(t.offsets(l as int)[last] == t.layer(l as int + 1).len());
            if lo + 1 < last {
                assert(t.offsets(l as int)[lo as int + 1] < t.offsets(l as int)[last]);
            }
        }
        let children = collect_subtrie(t, l + 1, clo, chi);
        let ghost inner = subtrie_rows(*t, l as int + 1, clo as int, chi as int);
        let m = children.len();
        let mut i: usize = 0;
        while i < m
            invariant
                m == children@.len(),
                i <= m,
                children.deep_view() == inner,
                block == inner.map_values(|row: Seq<u64>| seq![v] + row),
                out.deep_view() =~~= block.take(i as int),
            decreases m - i,
        {
            let mut row: Vec<u64> = Vec::new();
            row.push(v);
            let mut rest = clone_row(&children[i]);
            row.append(&mut rest);
            proof {
                assert(children@[i as int].deep_view() == inner[i as int]);
                assert(row.deep_view() =~= seq![v] + inner[i as int]);
                assert(block[i as int] == seq![v] + inner[i as int]);
            }
            let ghost row_v = row.deep_view();
            out.push(row);
            proof {
                assert(row_v =~= block[i as int]);
                assert(out.deep_view() =~~= block.take(i as int).push(row_v));
                assert(block.take(i as int).push(block[i as int])
                    =~~= block.take(i as int + 1));
                assert(out.deep_view() =~~= block.take(i as int + 1));
            }
            i = i + 1;
        }
        proof {
            assert(block.take(m as int) =~= block);
        }
    }
    let mut rest_rows = collect_subtrie(t, l, lo + 1, hi);
    let ghost out_pre = out.deep_view();
    let ghost rest_view = rest_rows.deep_view();
    out.append(&mut rest_rows);
    proof {
        assert(out.deep_view() =~~= out_pre + rest_view);
        assert(out.deep_view() =~~= subtrie_rows(*t, l as int, lo as int, hi as int));
    }
    out
}

/// A copy of a row with the same values.
fn clone_row(row: &Vec<u64>) -> (r: Vec<u64>)
    ensures
        r@ == row@,
{
    let mut out: Vec<u64> = Vec::new();
    let n = row.len();
    let mut i: usize = 0;
    while i < n
        invariant
            n == row@.len(),
            i <= n,
            out@ == row@.take(i as int),
        decreases n - i,
    {
        out.push(row[i]);
        proof {
            assert(row@.take(i as int + 1) =~= row@.take(i as int).push(row@[i as int]));
        }
        i = i + 1;
    }
    proof {
        assert(row@.take(n as int) =~= row@);
    }
    out
}

impl Trie {
    /// Drain the whole trie depth first: exactly its tuples, in strict
    /// lexicographic order.
    pub fn materialize(&self) -> (r: Vec<Vec<u64>>)
        requires
            self.wf(),
        ensures
            r.deep_view() == trie_rows(*self),
    {
        let n = self.columns[0].len();
        collect_subtrie(self, 0, 0, n)
    }

    /// Build a trie and confirm, by draining it, that it holds exactly
    /// the given tuples: the builder always succeeds on admissible
    /// input, and the returned trie is well formed and enumerates
    /// precisely the input.
    pub fn from_rows_checked(rows: &Vec<Vec<u64>>, arity: usize) -> (r: Option<Trie>)
        requires
            arity >= 1,
            rows_have_arity(rows.deep_view(), arity as int),
            rows_sorted_lex(rows.deep_view()),
        ensures
            r is Some,
            match r {
                Some(t) => t.wf() && t.spec_arity() == arity
                    && trie_rows(t) == rows.deep_view(),
                None => true,
            },
    {
        let t = Trie::from_rows(rows, arity);
        let out = t.materialize();
        if rows_equal(&out, rows) {
            proof {
                assert(trie_rows(t) =~~= rows.deep_view());
            }
            Some(t)
        } else {
            proof {
                assert(out.deep_view() =~~= rows.deep_view());
                assert(false);
            }
            None
        }
    }
}

/// Whether two tuple lists hold the same tuples in the same order.
pub fn rows_equal(a: &Vec<Vec<u64>>, b: &Vec<Vec<u64>>) -> (r: bool)
    ensures
        r == (a.deep_view() =~~= b.deep_view()),
{
    let n = a.len();
    if n != b.len() {
        return false;
    }
    let mut i: usize = 0;
    while i < n
        invariant
            n == a@.len(),
            n == b@.len(),
            i <= n,
            forall|x: int| 0 <= x < i
                ==> (#[trigger] a.deep_view()[x]) == b.deep_view()[x],
        decreases n - i,
    {
        let ra = &a[i];
        let rb = &b[i];
        let m = ra.len();
        if m != rb.len() {
            proof {
                assert(a.deep_view()[i as int].len() != b.deep_view()[i as int].len());
            }
            return false;
        }
        let mut j: usize = 0;
        while j < m
            invariant
                m == ra@.len(),
                m == rb@.len(),
                i < n,
                n == a@.len(),
                n == b@.len(),
                ra@ == a@[i as int]@,
                rb@ == b@[i as int]@,
                j <= m,
                forall|y: int| 0 <= y < j ==> ra@[y] == rb@[y],
            decreases m - j,
        {
            if ra[j] != rb[j] {
                proof {
                    assert(a.deep_view()[i as int][j as int] == ra@[j as int]);
                    assert(b.deep_view()[i as int][j as int] == rb@[j as int]);
                }
                return false;
            }
            j = j + 1;
        }
        proof {
            assert(a.deep_view()[i as int] =~= b.deep_view()[i as int]);
        }
        i = i + 1;
    }
    proof {
        assert(a.deep_view() =~~= b.deep_view());
    }
    true
}

// ------------------------------------------------------------------
// Paths and counting: the tuples a trie enumerates
// ------------------------------------------------------------------

/// A path through a well-formed trie whose layer values spell `row`:
/// one index per layer, each inside the child range of its parent.
spec fn trie_path_ok(t: Trie, row: Seq<u64>, p: Seq<int>) -> bool {
    &&& p.len() == t.spec_arity()
    &&& row.len() == t.spec_arity()
    &&& forall|l: int| 0 <= l < t.spec_arity()
        ==> 0 <= #[trigger] p[l] < t.layer(l).len() && t.layer(l)[p[l]] == row[l]
    &&& forall|l: int| 0 <= l < t.spec_arity() - 1
        ==> t.offsets(l)[#[trigger] p[l]] <= p[l + 1] < t.offsets(l)[p[l] + 1]
}

/// A row with a path through the trie is among the enumerated tuples
/// of every subtrie range containing the path.
proof fn lemma_path_row_enumerated(t: Trie, l: int, lo: int, hi: int, row: Seq<u64>, p: Seq<int>)
    requires
        t.wf(),
        0 <= l < t.spec_arity(),
        0 <= lo <= hi <= t.layer(l).len(),
        l < t.spec_arity() - 1 ==> hi < t.offsets(l).len(),
        p.len() == t.spec_arity(),
        row.len() == t.spec_arity(),
        forall|x: int| l <= x < t.spec_arity()
            ==> 0 <= #[trigger] p[x] < t.layer(x).len() && t.layer(x)[p[x]] == row[x],
        forall|x: int| l <= x < t.spec_arity() - 1
            ==> t.offsets(x)[#[trigger] p[x]] <= p[x + 1] < t.offsets(x)[p[x] + 1],
        lo <= p[l] < hi,
    ensures
        subtrie_rows(t, l, lo, hi).contains(row.skip(l)),
    decreases t.spec_arity() - l, hi - lo,
{
    let v = t.layer(l)[lo];
    let rows = subtrie_rows(t, l, lo, hi);
    let rest = subtrie_rows(t, l, lo + 1, hi);
    let block: Seq<Seq<u64>> = if l == t.spec_arity() - 1 {
        seq![seq![v]]
    } else {
        subtrie_rows(t, l + 1, t.offsets(l)[lo] as int, t.offsets(l)[lo + 1] as int)
            .map_values(|r: Seq<u64>| seq![v] + r)
    };
    assert(rows == block + rest);
    if p[l] == lo {
        if l == t.spec_arity() - 1 {
            assert(row.skip(l) =~= seq![v]);
            assert(rows[0] == seq![v]);
        } else {
            let clo = t.offsets(l)[lo] as int;
            let chi = t.offsets(l)[lo + 1] as int;
            assert(clo < chi);
            assert(chi <= t.layer(l + 1).len()) by {
                let last = t.layer(l).len() as int;
                assert(t.offsets(l)[last] == t.layer(l + 1).len());
                if lo + 1 < last {
                    assert(t.offsets(l)[lo + 1] < t.offsets(l)[last]);
                }
            }
            assert(l + 1 < t.spec_arity() - 1 ==> chi < t.offsets(l + 1).len()) by {
                if l + 1 < t.spec_arity() - 1 {
                    assert(t.offsets(l + 1).len() == t.layer(l + 1).len() + 1);
                }
            }
            lemma_path_row_enumerated(t, l + 1, clo, chi, row, p);
            let inner = subtrie_rows(t, l + 1, clo, chi);
            let j = choose|j: int| 0 <= j < inner.len() && inner[j] == row.skip(l + 1);
            assert(block[j] == seq![v] + row.skip(l + 1));
            assert(seq![v] + row.skip(l + 1) =~= row.skip(l));
            assert(rows[j] == block[j]);
        }
    } else {
        lemma_path_row_enumerated(t, l, lo + 1, hi, row, p);
        let j = choose|j: int| 0 <= j < rest.len() && rest[j] == row.skip(l);
        assert(rows[block.len() + j] == rest[j]);
    }
}

/// The leaf index reached from position `j` of layer `l` by always
/// descending to the first child.
spec fn leaf_at(t: Trie, l: int, j: int) -> int
    decreases t.spec_arity() - l when 0 <= l < t.spec_arity()
{
    if l >= t.spec_arity() - 1 {
        j
    } else {
        leaf_at(t, l + 1, t.offsets(l)[j] as int)
    }
}

/// The first descent from position zero reaches leaf zero.
proof fn lemma_leaf_at_zero(t: Trie, l: int)
    requires
        t.wf(),
        0 <= l < t.spec_arity(),
    ensures
        leaf_at(t, l, 0) == 0,
    decreases t.spec_arity() - l,
{
    if l < t.spec_arity() - 1 {
        assert(t.offsets(l)[0] == 0);
        lemma_leaf_at_zero(t, l + 1);
    }
}

/// The first descent from the position past the last value reaches the
/// position past the last leaf.
proof fn lemma_leaf_at_full(t: Trie, l: int)
    requires
        t.wf(),
        0 <= l < t.spec_arity(),
    ensures
        leaf_at(t, l, t.layer(l).len() as int) == t.layer(t.spec_arity() - 1).len(),
    decreases t.spec_arity() - l,
{
    if l < t.spec_arity() - 1 {
        assert(t.offsets(l)[t.layer(l).len() as int] == t.layer(l + 1).len());
        lemma_leaf_at_full(t, l + 1);
    }
}

/// The number of tuples a subtrie range enumerates equals its count of
/// descendant leaves.
proof fn lemma_subtrie_count(t: Trie, l: int, lo: int, hi: int)
    requires
        t.wf(),
        0 <= l < t.spec_arity(),
        0 <= lo <= hi <= t.layer(l).len(),
        l < t.spec_arity() - 1 ==> hi < t.offsets(l).len(),
    ensures
        subtrie_rows(t, l, lo, hi).len() == leaf_at(t, l, hi) - leaf_at(t, l, lo),
    decreases t.spec_arity() - l, hi - lo,
{
    if lo >= hi {
        return;
    }
    let rest = subtrie_rows(t, l, lo + 1, hi);
    if l == t.spec_arity() - 1 {
        lemma_subtrie_count(t, l, lo + 1, hi);
    } else {
        let clo = t.offsets(l)[lo] as int;
        let chi = t.offsets(l)[lo + 1] as int;
        assert(clo < chi);
        assert(chi <= t.layer(l + 1).len()) by {
            let last = t.layer(l).len() as int;
            assert(t.offsets(l)[last] == t.layer(l + 1).len());
            if lo + 1 < last {
                assert(t.offsets(l)[lo + 1] < t.offsets(l)[last]);
            }
        }
        assert(l + 1 < t.spec_arity() - 1 ==> chi < t.offsets(l + 1).len()) by {
            if l + 1 < t.spec_arity() - 1 {
                assert(t.offsets(l + 1).len() == t.layer(l + 1).len() + 1);
            }
        }
        lemma_subtrie_count(t, l + 1, clo, chi);
        lemma_subtrie_count(t, l, lo + 1, hi);
        assert(leaf_at(t, l, lo) == leaf_at(t, l + 1, clo));
        assert(leaf_at(t, l, lo + 1) == leaf_at(t, l + 1, chi));
        let inner = subtrie_rows(t, l + 1, clo, chi);
        let block = inner.map_values(|r: Seq<u64>| seq![t.layer(l)[lo]] + r);
        assert(subtrie_rows(t, l, lo, hi) == block + rest);
        assert(block.len() == inner.len());
    }
}

/// Strict lexicographic order is asymmetric, so distinct.
proof fn lemma_lex_asym(a: Seq<u64>, b: Seq<u64>)
    requires
        lex_less(a, b),
    ensures
        !lex_less(b, a),
        a != b,
    decreases a.len(),
{
    if a[0] == b[0] {
        lemma_lex_asym(a.skip(1), b.skip(1));
        if a == b {
            assert(a.skip(1) == b.skip(1));
        }
    }
}

/// The position in `b` holding the tuple `a[i]`.
spec fn pick_index(a: Seq<Seq<u64>>, b: Seq<Seq<u64>>, i: int) -> int {
    choose|j: int| 0 <= j < b.len() && b[j] == a[i]
}

/// The picked positions of successive tuples strictly increase.
proof fn lemma_pick_increasing(a: Seq<Seq<u64>>, b: Seq<Seq<u64>>, i1: int, i2: int)
    requires
        forall|i: int| 0 <= i < a.len() ==> #[trigger] b.contains(a[i]),
        forall|i: int, j: int| 0 <= i < j < a.len() ==> lex_less(a[i], a[j]),
        forall|i: int, j: int| 0 <= i < j < b.len() ==> lex_less(b[i], b[j]),
        0 <= i1 < i2 < a.len(),
    ensures
        pick_index(a, b, i1) < pick_index(a, b, i2),
{
    let j1 = pick_index(a, b, i1);
    let j2 = pick_index(a, b, i2);
    assert(b.contains(a[i1]));
    assert(b.contains(a[i2]));
    assert(0 <= j1 < b.len() && b[j1] == a[i1]);
    assert(0 <= j2 < b.len() && b[j2] == a[i2]);
    lemma_lex_asym(a[i1], a[i2]);
    if j1 == j2 {
        assert(a[i1] == a[i2]);
        assert(false);
    }
    if j2 < j1 {
        assert(lex_less(b[j2], b[j1]));
        assert(false);
    }
}

/// Each picked position is at least its own index.
proof fn lemma_pick_ge(a: Seq<Seq<u64>>, b: Seq<Seq<u64>>, i: int)
    requires
        forall|i: int| 0 <= i < a.len() ==> #[trigger] b.contains(a[i]),
        forall|i: int, j: int| 0 <= i < j < a.len() ==> lex_less(a[i], a[j]),
        forall|i: int, j: int| 0 <= i < j < b.len() ==> lex_less(b[i], b[j]),
        0 <= i < a.len(),
    ensures
        pick_index(a, b, i) >= i,
    decreases i,
{
    assert(b.contains(a[i]));
    assert(0 <= pick_index(a, b, i) < b.len() && b[pick_index(a, b, i)] == a[i]);
    if i > 0 {
        lemma_pick_ge(a, b, i - 1);
        lemma_pick_increasing(a, b, i - 1, i);
    }
}

/// Each picked position is at most its own index.
proof fn lemma_pick_le(a: Seq<Seq<u64>>, b: Seq<Seq<u64>>, i: int)
    requires
        a.len() == b.len(),
        forall|i: int| 0 <= i < a.len() ==> #[trigger] b.contains(a[i]),
        forall|i: int, j: int| 0 <= i < j < a.len() ==> lex_less(a[i], a[j]),
        forall|i: int, j: int| 0 <= i < j < b.len() ==> lex_less(b[i], b[j]),
        0 <= i < a.len(),
    ensures
        pick_index(a, b, i) <= i,
    decreases a.len() - i,
{
    assert(b.contains(a[i]));
    if i == a.len() - 1 {
        assert(pick_index(a, b, i) < b.len());
    } else {
        lemma_pick_le(a, b, i + 1);
        lemma_pick_increasing(a, b, i, i + 1);
    }
}

/// Two strictly ordered tuple lists of the same length, the first
/// contained in the second, are equal.
proof fn lemma_sorted_contained_equal(a: Seq<Seq<u64>>, b: Seq<Seq<u64>>)
    requires
        a.len() == b.len(),
        forall|i: int| 0 <= i < a.len() ==> #[trigger] b.contains(a[i]),
        forall|i: int, j: int| 0 <= i < j < a.len() ==> lex_less(a[i], a[j]),
        forall|i: int, j: int| 0 <= i < j < b.len() ==> lex_less(b[i], b[j]),
    ensures
        a == b,
{
    assert forall|i: int| 0 <= i < a.len() implies a[i] == b[i] by {
        lemma_pick_ge(a, b, i);
        lemma_pick_le(a, b, i);
        assert(b.contains(a[i]));
        assert(b[pick_index(a, b, i)] == a[i]);
    }
    assert(a =~= b);
}

/// The tuples a well-formed trie enumerates by depth-first descent are
/// in strict lexicographic order (so there are no duplicates), and each
/// has the trie's arity.
pub proof fn lemma_trie_rows_lex_order(t: Trie)
    requires
        t.wf(),
    ensures
        forall|i: int, j: int| 0 <= i < j < trie_rows(t).len()
            ==> lex_less(trie_rows(t)[i], trie_rows(t)[j]),
        forall|r: int| 0 <= r < trie_rows(t).len()
            ==> (#[trigger] trie_rows(t)[r]).len() == t.spec_arity(),
{
    lemma_subtrie_sorted(t, 0, 0, t.layer(0).len() as int);
}

} // verus!
