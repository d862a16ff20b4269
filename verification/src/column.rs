//! Column storages: immutable sequences of `u64` scalars with indexed
//! access.  Two realizations exist: a dense vector and a run-length
//! encoding of arithmetic progressions.  An adaptive builder buffers
//! appended values and picks the better of the two at finalization.

use vstd::prelude::*;
use vstd::arithmetic::mul::lemma_mul_inequality;

verus! {

// ------------------------------------------------------------------
// Dense vector column
// ------------------------------------------------------------------

/// A column stored as a contiguous array; random access in O(1).
pub struct VectorColumn {
    data: Vec<u64>,
}

impl View for VectorColumn {
    type V = Seq<u64>;

    closed spec fn view(&self) -> Seq<u64> {
        self.data@
    }
}

impl VectorColumn {
    /// Wrap a vector of values as a column.
    pub fn new(data: Vec<u64>) -> (r: VectorColumn)
        ensures
            r@ == data@,
    {
        VectorColumn { data }
    }

    /// The number of values in the column.
    pub fn len(&self) -> (r: usize)
        ensures
            r == self@.len(),
    {
        self.data.len()
    }

    /// The value at index `i`.
    pub fn get(&self, i: usize) -> (r: u64)
        requires
            i < self@.len(),
        ensures
            r == self@[i as int],
    {
        self.data[i]
    }
}

// ------------------------------------------------------------------
// Run-length-encoded column
// ------------------------------------------------------------------

/// One run of an RLE column: the arithmetic progression
/// `start, start + increment, ..., start + (length - 1) * increment`.
pub struct RleRun {
    /// The first value of the run.
    pub start: u64,
    /// The difference between neighbouring values of the run.
    pub increment: u64,
    /// The number of values of the run; at least one.
    pub length: usize,
}

/// A run is well formed when it is non-empty and its largest value
/// still fits in `u64`.
pub open spec fn run_wf(r: RleRun) -> bool {
    &&& r.length >= 1
    &&& r.start + (r.length - 1) * r.increment <= u64::MAX
}

/// The sequence of values a run stands for.
pub open spec fn run_seq(r: RleRun) -> Seq<u64> {
    Seq::new(r.length as nat, |k: int| (r.start + k * r.increment) as u64)
}

/// Every value of a well-formed run equals `start + k * increment`
/// exactly (no wrap-around in the cast).
pub proof fn lemma_run_value(r: RleRun, k: int)
    requires
        run_wf(r),
        0 <= k < r.length,
    ensures
        run_seq(r)[k] == r.start + k * r.increment,
        r.start + k * r.increment <= u64::MAX,
{
    lemma_mul_inequality(k, r.length - 1, r.increment as int);
}

/// The decoded contents of a sequence of runs, in order.
pub open spec fn decode_runs(runs: Seq<RleRun>) -> Seq<u64>
    decreases runs.len(),
{
    if runs.len() == 0 {
        Seq::empty()
    } else {
        decode_runs(runs.drop_last()) + run_seq(runs.last())
    }
}

/// Decoding splits at any run boundary `k`.
pub proof fn lemma_decode_split(runs: Seq<RleRun>, k: int)
    requires
        0 <= k <= runs.len(),
    ensures
        decode_runs(runs) == decode_runs(runs.take(k)) + decode_runs(runs.skip(k)),
    decreases runs.len(),
{
    if runs.len() == 0 {
        assert(runs.take(k) =~= runs);
        assert(runs.skip(k) =~= runs);
        assert(decode_runs(runs.take(k)) + decode_runs(runs.skip(k)) =~= decode_runs(runs));
    } else if k == runs.len() {
        assert(runs.take(k) =~= runs);
        assert(runs.skip(k) =~= Seq::<RleRun>::empty());
        assert(decode_runs(runs.take(k)) + decode_runs(runs.skip(k)) =~= decode_runs(runs));
    } else {
        let prefix = runs.drop_last();
        lemma_decode_split(prefix, k);
        assert(prefix.take(k) =~= runs.take(k));
        assert(runs.skip(k).drop_last() =~= prefix.skip(k));
        assert(runs.skip(k).last() == runs.last());
        assert(runs.skip(k).len() > 0);
        assert(decode_runs(runs.skip(k)) == decode_runs(prefix.skip(k)) + run_seq(runs.last()));
        assert(decode_runs(runs) == decode_runs(prefix) + run_seq(runs.last()));
        assert(decode_runs(runs.take(k)) + decode_runs(runs.skip(k)) =~= decode_runs(runs));
    }
}

/// Taking one more run appends that run's values.
pub proof fn lemma_decode_take_step(runs: Seq<RleRun>, k: int)
    requires
        0 <= k < runs.len(),
    ensures
        decode_runs(runs.take(k + 1)) == decode_runs(runs.take(k)) + run_seq(runs[k]),
{
    let t = runs.take(k + 1);
    assert(t.drop_last() =~= runs.take(k));
    assert(t.last() == runs[k]);
    assert(t.len() > 0);
}

/// The value at offset `j` inside run `k` of the decoding.
pub proof fn lemma_decode_index(runs: Seq<RleRun>, k: int, j: int)
    requires
        0 <= k < runs.len(),
        0 <= j < runs[k].length,
        run_wf(runs[k]),
    ensures
        decode_runs(runs.take(k)).len() + j < decode_runs(runs).len(),
        decode_runs(runs)[decode_runs(runs.take(k)).len() + j]
            == runs[k].start + j * runs[k].increment,
{
    lemma_decode_split(runs, k + 1);
    lemma_decode_take_step(runs, k);
    lemma_run_value(runs[k], j);
    let base = decode_runs(runs.take(k)).len() as int;
    assert(decode_runs(runs.take(k + 1))[base + j] == run_seq(runs[k])[j]);
    assert(decode_runs(runs)[base + j] == decode_runs(runs.take(k + 1))[base + j]);
}

/// The number of runs the greedy encoder still forms over
/// `data[i..]`, counting the open run it stands in: position `i` joins
/// the open run when it continues its arithmetic progression (the
/// second value of a run fixes the increment, and descending
/// neighbours never join), and opens a fresh run otherwise.
pub open spec fn rle_count_from(data: Seq<u64>, i: int, run_len: int, inc: u64) -> nat
    decreases data.len() - i when 1 <= i <= data.len()
{
    if i >= data.len() {
        1
    } else {
        let prev = data[i - 1];
        let v = data[i];
        if run_len == 1 && v >= prev {
            rle_count_from(data, i + 1, 2, (v - prev) as u64)
        } else if run_len >= 2 && v >= prev && (v - prev) as u64 == inc {
            rle_count_from(data, i + 1, run_len + 1, inc)
        } else {
            1 + rle_count_from(data, i + 1, 1, 0)
        }
    }
}

/// The number of runs the greedy encoder forms over `data`.
pub open spec fn rle_run_count(data: Seq<u64>) -> nat {
    if data.len() == 0 {
        0
    } else {
        rle_count_from(data, 1, 1, 0)
    }
}

/// A column stored as runs of arithmetic progressions; random access
/// locates the containing run first.
pub struct RleColumn {
    runs: Vec<RleRun>,
    length: usize,
}

impl View for RleColumn {
    type V = Seq<u64>;

    closed spec fn view(&self) -> Seq<u64> {
        decode_runs(self.runs@)
    }
}

impl RleColumn {
    /// All runs are well formed and the cached length is the decoded length.
    pub closed spec fn wf(&self) -> bool {
        &&& forall|i: int| 0 <= i < self.runs@.len() ==> run_wf(#[trigger] self.runs@[i])
        &&& self.length == decode_runs(self.runs@).len()
    }

    /// The number of runs the column uses.
    pub fn num_runs(&self) -> (r: usize)
        ensures
            r == self.spec_num_runs(),
    {
        self.runs.len()
    }

    /// The number of runs, for contracts about the encoding's shape.
    pub closed spec fn spec_num_runs(&self) -> nat {
        self.runs@.len()
    }

    /// Encode `data`; the decoding of the result is exactly `data`,
    /// and the encoding has exactly the greedy number of runs.
    pub fn from_values(data: &Vec<u64>) -> (r: RleColumn)
        ensures
            r.wf(),
            r@ == data@,
            r.spec_num_runs() == rle_run_count(data@),
    {
        let runs = runs_from_values(data);
        let length = data.len();
        RleColumn { runs, length }
    }

    /// The number of values in the column.
    pub fn len(&self) -> (r: usize)
        requires
            self.wf(),
        ensures
            r == self@.len(),
    {
        self.length
    }

    /// The value at index `i`, found by locating the containing run.
    pub fn get(&self, i: usize) -> (r: u64)
        requires
            self.wf(),
            i < self@.len(),
        ensures
            r == self@[i as int],
    {
        let ghost rs = self.runs@;
        let nruns = self.runs.len();
        let mut k: usize = 0;
        let mut base: usize = 0;
        proof {
            assert(rs.take(0) =~= Seq::<RleRun>::empty());
        }
        loop
            invariant
                self.wf(),
                i < self@.len(),
                k <= nruns,
                nruns == rs.len(),
                base <= i,
                rs == self.runs@,
                base == decode_runs(rs.take(k as int)).len(),
            decreases rs.len() - k,
        {
            proof {
                if k == rs.len() {
                    assert(rs.take(k as int) =~= rs);
                    assert(false);
                }
                lemma_decode_take_step(rs, k as int);
                lemma_decode_split(rs, k + 1);
            }
            let run_len = self.runs[k].length;
            if base + run_len <= i {
                base = base + run_len;
                k = k + 1;
            } else {
                let j = i - base;
                proof {
                    lemma_decode_index(rs, k as int, j as int);
                }
                let run = &self.runs[k];
                return run.start + (j as u64) * run.increment;
            }
        }
    }
}

/// Accumulate `data` into runs: a value extends the current run when it
/// continues the run's arithmetic progression (the second value of a
/// run fixes the increment; descending neighbours never merge).
fn runs_from_values(data: &Vec<u64>) -> (r: Vec<RleRun>)
    ensures
        forall|i: int| 0 <= i < r@.len() ==> run_wf(#[trigger] r@[i]),
        decode_runs(r@) == data@,
        r@.len() == rle_run_count(data@),
{
    let mut runs: Vec<RleRun> = Vec::new();
    let mut idx: usize = 0;
    proof {
        assert(decode_runs(runs@) =~= data@.take(0));
    }
    while idx < data.len()
        invariant
            idx <= data@.len(),
            forall|i: int| 0 <= i < runs@.len() ==> run_wf(#[trigger] runs@[i]),
            decode_runs(runs@) == data@.take(idx as int),
            idx > 0 ==> runs@.len() > 0,
            idx > 0 ==> runs@.last().start
                + (runs@.last().length - 1) * runs@.last().increment == data@[idx - 1],
            idx == 0 ==> runs@.len() == 0,
            idx > 0 ==> rle_run_count(data@) == runs@.len() - 1
                + rle_count_from(data@, idx as int, runs@.last().length as int,
                    runs@.last().increment),
        decreases data@.len() - idx,
    {
        let v = data[idx];
        let ghost old_runs = runs@;
        let mut extended = false;
        if idx > 0 {
            let last_i = runs.len() - 1;
            let last_start = runs[last_i].start;
            let last_inc = runs[last_i].increment;
            let last_len = runs[last_i].length;
            proof {
                assert(run_wf(runs@[last_i as int]));
                assert(decode_runs(old_runs)
                    == decode_runs(old_runs.drop_last()) + run_seq(old_runs.last()));
                assert(last_len <= decode_runs(old_runs).len());
            }
            let prev = last_start + ((last_len - 1) as u64) * last_inc;
            if last_len == 1 && v >= prev {
                runs.set(last_i, RleRun { start: last_start, increment: v - prev, length: 2 });
                extended = true;
                proof {
                    assert(runs@.drop_last() =~= old_runs.drop_last());
                    vstd::arithmetic::mul::lemma_mul_basics(last_inc as int);
                    vstd::arithmetic::mul::lemma_mul_basics((v - prev) as int);
                    assert(prev == last_start);
                    assert(runs@.last().length - 1 == 1);
                    assert(1 * ((v - prev) as int) == (v - prev) as int);
                    lemma_extend_last(old_runs, runs@, v as u64);
                    assert(data@[idx - 1] == prev);
                    assert(rle_count_from(data@, idx as int, 1, old_runs.last().increment)
                        == rle_count_from(data@, idx + 1, 2, (v - prev) as u64));
                }
            } else if last_len >= 2 && v >= prev && v - prev == last_inc {
                runs.set(
                    last_i,
                    RleRun { start: last_start, increment: last_inc, length: last_len + 1 },
                );
                extended = true;
                proof {
                    assert(runs@.drop_last() =~= old_runs.drop_last());
                    vstd::arithmetic::mul::lemma_mul_is_distributive_add_other_way(
                        last_inc as int, last_len - 1, 1);
                    lemma_extend_last(old_runs, runs@, v as u64);
                    assert(data@[idx - 1] == prev);
                    assert(rle_count_from(
                        data@, idx as int, last_len as int, last_inc)
                        == rle_count_from(data@, idx + 1, last_len + 1, last_inc));
                }
            } else {
                proof {
                    assert(data@[idx - 1] == prev);
                    assert(rle_count_from(
                        data@, idx as int, last_len as int, last_inc)
                        == 1 + rle_count_from(data@, idx + 1, 1, 0));
                }
            }
        }
        if !extended {
            runs.push(RleRun { start: v, increment: 0u64, length: 1usize });
            proof {
                assert(runs@.drop_last() =~= old_runs);
                assert(run_seq(runs@.last()) =~= seq![v as u64]);
                assert(decode_runs(runs@) =~= decode_runs(old_runs).push(v as u64));
                if idx == 0 {
                    assert(rle_run_count(data@) == rle_count_from(data@, 1, 1, 0));
                }
            }
        }
        proof {
            assert(data@.take(idx + 1) =~= data@.take(idx as int).push(data@[idx as int]));
            assert(decode_runs(runs@) =~= data@.take(idx + 1));
        }
        idx = idx + 1;
    }
    proof {
        assert(data@.take(data@.len() as int) =~= data@);
        if data@.len() > 0 {
            assert(rle_count_from(data@, data@.len() as int,
                runs@.last().length as int, runs@.last().increment) == 1);
        }
    }
    runs
}

/// Replacing the last run by the same run with one more value appends
/// that value to the decoding.
proof fn lemma_extend_last(old_runs: Seq<RleRun>, new_runs: Seq<RleRun>, v: u64)
    requires
        old_runs.len() > 0,
        new_runs.len() == old_runs.len(),
        new_runs.drop_last() == old_runs.drop_last(),
        run_wf(old_runs.last()),
        new_runs.last().start == old_runs.last().start,
        new_runs.last().length == old_runs.last().length + 1,
        old_runs.last().length == 1 || new_runs.last().increment == old_runs.last().increment,
        v == new_runs.last().start
            + (new_runs.last().length - 1) * new_runs.last().increment,
        v <= u64::MAX,
    ensures
        run_wf(new_runs.last()),
        decode_runs(new_runs) == decode_runs(old_runs).push(v),
{
    let o = old_runs.last();
    let n = new_runs.last();
    assert forall|k: int| 0 <= k < n.length implies
        n.start + #[trigger] (k * n.increment) <= u64::MAX by {
        lemma_mul_inequality(k, n.length - 1, n.increment as int);
    }
    assert(run_wf(n));
    assert forall|k: int| 0 <= k < o.length implies
        run_seq(n)[k] == run_seq(o)[k] by {
        if o.length == 1 {
            assert(k == 0);
        }
    }
    assert(run_seq(n) =~= run_seq(o).push(v));
    assert(decode_runs(new_runs) == decode_runs(new_runs.drop_last()) + run_seq(n));
    assert(decode_runs(new_runs) =~= decode_runs(old_runs).push(v));
}

// ------------------------------------------------------------------
// The storage sum type
// ------------------------------------------------------------------

/// A column storage of either realization.
pub enum ColumnT {
    /// A dense vector column.
    Vector(VectorColumn),
    /// A run-length-encoded column.
    Rle(RleColumn),
}

impl View for ColumnT {
    type V = Seq<u64>;

    closed spec fn view(&self) -> Seq<u64> {
        match self {
            ColumnT::Vector(c) => c@,
            ColumnT::Rle(c) => c@,
        }
    }
}

impl ColumnT {
    /// An RLE payload carries its internal well-formedness.
    pub closed spec fn wf(&self) -> bool {
        match self {
            ColumnT::Vector(_) => true,
            ColumnT::Rle(c) => c.wf(),
        }
    }

    /// A dense column as a storage.
    pub fn from_vector(c: VectorColumn) -> (r: ColumnT)
        ensures
            r.wf(),
            r@ == c@,
    {
        ColumnT::Vector(c)
    }

    /// An RLE column as a storage.
    pub fn from_rle(c: RleColumn) -> (r: ColumnT)
        requires
            c.wf(),
        ensures
            r.wf(),
            r@ == c@,
    {
        ColumnT::Rle(c)
    }

    /// The number of values in the column.
    pub fn len(&self) -> (r: usize)
        requires
            self.wf(),
        ensures
            r == self@.len(),
    {
        match self {
            ColumnT::Vector(c) => c.len(),
            ColumnT::Rle(c) => c.len(),
        }
    }

    /// The value at index `i`.
    pub fn get(&self, i: usize) -> (r: u64)
        requires
            self.wf(),
            i < self@.len(),
        ensures
            r == self@[i as int],
    {
        match self {
            ColumnT::Vector(c) => c.get(i),
            ColumnT::Rle(c) => c.get(i),
        }
    }
}

// ------------------------------------------------------------------
// The adaptive builder
// ------------------------------------------------------------------

/// Buffers appended values; `finalize` emits an RLE column when the
/// average run is at least `RLE_MIN_AVERAGE_RUN` values long, and a
/// dense column otherwise.
pub struct AdaptiveColumnBuilder {
    values: Vec<u64>,
}

/// An RLE encoding is kept only when the average run reaches this length.
pub const RLE_MIN_AVERAGE_RUN: usize = 8;

impl View for AdaptiveColumnBuilder {
    type V = Seq<u64>;

    closed spec fn view(&self) -> Seq<u64> {
        self.values@
    }
}

impl AdaptiveColumnBuilder {
    /// An empty builder.
    pub fn new() -> (r: AdaptiveColumnBuilder)
        ensures
            r@ == Seq::<u64>::empty(),
    {
        AdaptiveColumnBuilder { values: Vec::new() }
    }

    /// Append one value.
    pub fn add(&mut self, value: u64)
        ensures
            final(self)@ == old(self)@.push(value),
    {
        self.values.push(value);
    }

    /// Discard the most recently appended value.
    pub fn forget(&mut self)
        requires
            old(self)@.len() > 0,
        ensures
            final(self)@ == old(self)@.drop_last(),
    {
        self.values.pop();
    }

    /// The number of values appended so far.
    pub fn count(&self) -> (r: usize)
        ensures
            r == self@.len(),
    {
        self.values.len()
    }

    /// Emit a column whose contents are exactly the appended values.
    pub fn finalize(self) -> (r: ColumnT)
        ensures
            r.wf(),
            r@ == self@,
    {
        let rle = RleColumn::from_values(&self.values);
        if rle.num_runs() <= self.values.len() / RLE_MIN_AVERAGE_RUN {
            ColumnT::Rle(rle)
        } else {
            ColumnT::Vector(VectorColumn::new(self.values))
        }
    }
}

} // verus!
