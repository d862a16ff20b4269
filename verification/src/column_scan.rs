//! Column scans: stateful forward-only cursors over a column with
//! `next`, `seek`, `current`, `reset`, `narrow` and `pos`.  `seek` uses
//! a galloping (exponential) probe followed by a binary search, so its
//! cost is logarithmic in the distance skipped.

use vstd::prelude::*;
use crate::column::ColumnT;

verus! {

/// The first index at or after `base` whose value is at least `t`, or
/// the length of `s` when no such index exists.
pub open spec fn lower_bound_from(s: Seq<u64>, base: int, t: u64) -> int
    decreases s.len() - base when 0 <= base <= s.len()
{
    if base >= s.len() {
        s.len() as int
    } else if s[base] >= t {
        base
    } else {
        lower_bound_from(s, base + 1, t)
    }
}

/// `lower_bound_from` stays within bounds, skips only values below `t`,
/// and lands on a value at least `t` when it lands at all.
pub proof fn lemma_lower_bound_from(s: Seq<u64>, base: int, t: u64)
    requires
        0 <= base <= s.len(),
    ensures
        base <= lower_bound_from(s, base, t) <= s.len(),
        forall|j: int| base <= j < lower_bound_from(s, base, t) ==> s[j] < t,
        lower_bound_from(s, base, t) < s.len() ==> s[lower_bound_from(s, base, t)] >= t,
    decreases s.len() - base,
{
    if base < s.len() && s[base] < t {
        lemma_lower_bound_from(s, base + 1, t);
    }
}

/// Any index satisfying the three properties above is `lower_bound_from`.
pub proof fn lemma_lower_bound_unique(s: Seq<u64>, base: int, t: u64, r: int)
    requires
        0 <= base <= r <= s.len(),
        forall|j: int| base <= j < r ==> s[j] < t,
        r < s.len() ==> s[r] >= t,
    ensures
        r == lower_bound_from(s, base, t),
    decreases s.len() - base,
{
    if base < s.len() && s[base] < t {
        lemma_lower_bound_unique(s, base + 1, t, r);
    }
}

/// A cursor over a (possibly narrowed) column.  The position ranges
/// over `0` (before the first value), `1 ..= n` (at the value with that
/// one-based index) and `n + 1` (exhausted), where `n` is the length of
/// the narrowed range.
pub struct GenericColumnScan<'a> {
    column: &'a ColumnT,
    lower: usize,
    upper: usize,
    pos: usize,
    done: bool,
}

impl<'a> GenericColumnScan<'a> {
    /// The narrowed contents the scan walks over.
    pub closed spec fn data(&self) -> Seq<u64> {
        self.column@.subrange(self.lower as int, self.upper as int)
    }

    /// The cursor position; see the type's documentation.
    pub closed spec fn spec_pos(&self) -> int {
        if self.done {
            self.data().len() as int + 1
        } else {
            self.pos as int
        }
    }

    /// Basic well-formedness: the narrow range and the position are in bounds.
    pub closed spec fn wf(&self) -> bool {
        &&& self.column.wf()
        &&& self.lower <= self.upper <= self.column@.len()
        &&& self.pos <= self.data().len()
        &&& (self.done ==> self.pos == self.data().len())
    }

    /// The value the cursor stands at, if any.
    pub open spec fn current_spec(&self) -> Option<u64> {
        if 1 <= self.spec_pos() && self.spec_pos() <= self.data().len() {
            Some(self.data()[self.spec_pos() - 1])
        } else {
            None
        }
    }

    /// The scan has not produced a value yet.
    pub open spec fn is_fresh(&self) -> bool {
        self.spec_pos() == 0
    }

    /// The scan has moved past its last value.
    pub open spec fn is_exhausted(&self) -> bool {
        self.spec_pos() == self.data().len() + 1
    }

    /// The first index of `data` the scan may still return: the current
    /// index while positioned, everything from the start while fresh.
    pub open spec fn front(&self) -> int {
        if self.spec_pos() == 0 {
            0
        } else {
            self.spec_pos() - 1
        }
    }

    /// The cursor's front never leaves the narrowed range.
    pub proof fn lemma_front_bounds(&self)
        requires
            self.wf(),
        ensures
            0 <= self.front() <= self.data().len(),
            0 <= self.spec_pos() <= self.data().len() + 1,
    {
    }

    /// The narrowed range sits inside the backing column.
    pub proof fn lemma_range_in_column(&self)
        requires
            self.wf(),
        ensures
            0 <= self.spec_lower(),
            self.spec_lower() + self.data().len() <= self.spec_column().len(),
            self.data() == self.spec_column().subrange(
                self.spec_lower(), self.spec_lower() + self.data().len()),
    {
        assert(self.data() =~= self.spec_column().subrange(
            self.spec_lower(), self.spec_lower() + self.data().len() as int));
    }

    /// A fresh scan over the whole of `column`.
    pub fn new(column: &'a ColumnT) -> (r: GenericColumnScan<'a>)
        requires
            column.wf(),
        ensures
            r.wf(),
            r.data() == column@,
            r.spec_column() == column@,
            r.spec_lower() == 0,
            r.is_fresh(),
    {
        let upper = column.len();
        proof {
            assert(column@.subrange(0, column@.len() as int) =~= column@);
        }
        GenericColumnScan { column, lower: 0, upper, pos: 0, done: false }
    }

    /// The value of the most recent successful `next` or `seek`.
    pub fn current(&self) -> (r: Option<u64>)
        requires
            self.wf(),
        ensures
            r == self.current_spec(),
    {
        if !self.done && 1 <= self.pos {
            Some(self.column.get(self.lower + self.pos - 1))
        } else {
            None
        }
    }

    /// The index of the current value within the backing column.
    pub fn pos(&self) -> (r: Option<usize>)
        requires
            self.wf(),
        ensures
            match r {
                Some(i) => self.current_spec() is Some
                    && i == self.spec_lower() + self.front()
                    && self.spec_column()[i as int] == self.current_spec().unwrap(),
                None => self.current_spec() is None,
            },
    {
        if !self.done && 1 <= self.pos {
            Some(self.lower + self.pos - 1)
        } else {
            None
        }
    }

    /// The start of the narrowed range within the backing column.
    pub closed spec fn spec_lower(&self) -> int {
        self.lower as int
    }

    /// Return to the pre-start state; the narrowed range is kept.
    pub fn reset(&mut self)
        requires
            old(self).wf(),
        ensures
            final(self).wf(),
            final(self).data() == old(self).data(),
            final(self).spec_column() == old(self).spec_column(),
            final(self).spec_lower() == old(self).spec_lower(),
            final(self).is_fresh(),
    {
        self.pos = 0;
        self.done = false;
    }

    /// Restrict the scan to `column[lower .. upper]` and reset it.
    pub fn narrow(&mut self, lower: usize, upper: usize)
        requires
            old(self).wf(),
            lower <= upper,
            upper <= old(self).spec_column().len(),
        ensures
            final(self).wf(),
            final(self).data() == old(self).spec_column().subrange(
                lower as int, upper as int),
            final(self).spec_column() == old(self).spec_column(),
            final(self).spec_lower() == lower as int,
            final(self).is_fresh(),
    {
        self.lower = lower;
        self.upper = upper;
        self.pos = 0;
        self.done = false;
    }

    /// The whole backing column, for contracts that narrow.
    pub closed spec fn spec_column(&self) -> Seq<u64> {
        self.column@
    }

    /// Advance to the next value; `None` once the range is exhausted.
    pub fn next(&mut self) -> (r: Option<u64>)
        requires
            old(self).wf(),
        ensures
            final(self).wf(),
            final(self).data() == old(self).data(),
            final(self).spec_column() == old(self).spec_column(),
            final(self).spec_lower() == old(self).spec_lower(),
            final(self).spec_pos() == if old(self).is_exhausted() {
                old(self).spec_pos()
            } else {
                old(self).spec_pos() + 1
            },
            r == final(self).current_spec(),
    {
        let n = self.upper - self.lower;
        if self.done {
            return None;
        }
        if self.pos < n {
            self.pos = self.pos + 1;
            Some(self.column.get(self.lower + self.pos - 1))
        } else {
            self.done = true;
            None
        }
    }

    /// Position at the first value at least `target`, looking from the
    /// current position onward; `None` when no such value remains.  On
    /// sorted data this is the least remaining value `>= target`.
    pub fn seek(&mut self, target: u64) -> (r: Option<u64>)
        requires
            old(self).wf(),
            crate::seq_sorted(old(self).data()),
        ensures
            final(self).wf(),
            final(self).data() == old(self).data(),
            final(self).spec_column() == old(self).spec_column(),
            final(self).spec_lower() == old(self).spec_lower(),
            final(self).spec_pos() == lower_bound_from(
                old(self).data(), old(self).front(), target) + 1,
            final(self).spec_pos() >= old(self).spec_pos(),
            r == final(self).current_spec(),
            match r {
                Some(v) => v >= target && final(self).current_spec() == Some(v),
                None => final(self).is_exhausted(),
            },
    {
        let ghost s = self.data();
        let n = self.upper - self.lower;
        let base = if self.done {
            n
        } else if self.pos == 0 {
            0
        } else {
            self.pos - 1
        };
        proof {
            lemma_lower_bound_from(s, base as int, target);
        }
        if base >= n {
            self.pos = n;
            self.done = true;
            proof {
                lemma_lower_bound_unique(s, base as int, target, n as int);
            }
            return None;
        }
        // Galloping probe: lo is always below the answer's index bound,
        // hi (when set) is at an index whose value reaches the target.
        let mut lo: usize = base;
        let mut hi: usize = n;
        let mut found = false;
        if self.column.get(self.lower + base) >= target {
            self.pos = base + 1;
            proof {
                lemma_lower_bound_unique(s, base as int, target, base as int);
            }
            return Some(self.column.get(self.lower + base));
        }
        // data[base] < target: gallop from base.
        let mut step: usize = 1;
        loop
            invariant
                self.wf(),
                s == self.data(),
                n == s.len(),
                base <= lo < n,
                s[lo as int] < target,
                found ==> lo < hi < n && s[hi as int] >= target,
                !found ==> hi == n,
                step >= 1,
                crate::seq_sorted(s),
            ensures
                base <= lo < n,
                s[lo as int] < target,
                found ==> lo + 1 == hi < n && s[hi as int] >= target,
                !found ==> lo == n - 1,
            decreases hi - lo,
        {
            if found {
                // Binary search between lo (below target) and hi (at or
                // above it).
                if lo + 1 == hi {
                    break;
                }
                let mid = lo + (hi - lo) / 2;
                if self.column.get(self.lower + mid) >= target {
                    hi = mid;
                } else {
                    lo = mid;
                }
            } else {
                let probe = if n - lo > step { lo + step } else { n - 1 };
                if probe == lo {
                    break;
                }
                if self.column.get(self.lower + probe) >= target {
                    hi = probe;
                    found = true;
                } else {
                    lo = probe;
                }
                if step <= n / 2 {
                    step = step * 2;
                }
            }
        }
        // Either found with lo + 1 == hi, or not found with lo == n - 1
        // and data[lo] < target.
        if found {
            self.pos = hi + 1;
            proof {
                assert forall|j: int| base <= j < hi implies s[j] < target by {
                    assert(s[j] <= s[lo as int]);
                }
                lemma_lower_bound_unique(s, base as int, target, hi as int);
            }
            Some(self.column.get(self.lower + hi))
        } else {
            self.pos = n;
            self.done = true;
            proof {
                assert forall|j: int| base <= j < n implies s[j] < target by {
                    assert(s[j] <= s[lo as int]);
                }
                lemma_lower_bound_unique(s, base as int, target, n as int);
            }
            None
        }
    }
}

impl<'a> GenericColumnScan<'a> {
    /// Drain the rest of the scan by repeated `next`: from a fresh scan
    /// this reproduces the column's contents exactly.
    pub fn collect_remaining(&mut self) -> (r: Vec<u64>)
        requires
            old(self).wf(),
        ensures
            final(self).wf(),
            final(self).data() == old(self).data(),
            final(self).spec_column() == old(self).spec_column(),
            final(self).spec_lower() == old(self).spec_lower(),
            r@ == if old(self).is_exhausted() {
                Seq::<u64>::empty()
            } else {
                old(self).data().skip(old(self).spec_pos())
            },
    {
        let mut out: Vec<u64> = Vec::new();
        let ghost start = if old(self).is_exhausted() {
            old(self).data().len() as int
        } else {
            old(self).spec_pos()
        };
        loop
            invariant
                self.wf(),
                self.data() == old(self).data(),
                self.spec_column() == old(self).spec_column(),
                self.spec_lower() == old(self).spec_lower(),
                0 <= start <= self.spec_pos() <= self.data().len() + 1,
                start <= self.data().len(),
                self.spec_pos() >= 1 ==> out@ == self.data().subrange(
                    start, if self.is_exhausted() {
                        self.data().len() as int
                    } else {
                        self.spec_pos()
                    }),
                self.spec_pos() == 0 ==> start == 0 && out@ == Seq::<u64>::empty(),
            ensures
                self.wf(),
                self.data() == old(self).data(),
                self.spec_column() == old(self).spec_column(),
                self.spec_lower() == old(self).spec_lower(),
                out@ == self.data().subrange(start, self.data().len() as int),
            decreases self.data().len() + 1 - self.spec_pos(),
        {
            let ghost prev = *self;
            let ghost preout = out@;
            match self.next() {
                Some(v) => {
                    proof {
                        if prev.is_exhausted() {
                            assert(false);
                        }
                        assert(self.spec_pos() == prev.spec_pos() + 1);
                        assert(1 <= self.spec_pos() <= self.data().len());
                        assert(v == self.data()[self.spec_pos() - 1]);
                        if prev.spec_pos() == 0 {
                            assert(preout =~= self.data().subrange(start, prev.spec_pos()));
                        } else {
                            assert(preout == self.data().subrange(start, prev.spec_pos()));
                        }
                    }
                    out.push(v);
                    proof {
                        assert(out@ =~= self.data().subrange(start, self.spec_pos()));
                    }
                },
                None => {
                    proof {
                        if prev.spec_pos() == 0 {
                            assert(self.data().len() == 0);
                            assert(out@ =~= self.data().subrange(
                                start, self.data().len() as int));
                        } else if prev.is_exhausted() {
                            assert(out@ =~= self.data().subrange(
                                start, self.data().len() as int));
                        } else {
                            assert(prev.spec_pos() == self.data().len());
                            assert(out@ =~= self.data().subrange(
                                start, self.data().len() as int));
                        }
                    }
                    break;
                },
            }
        }
        proof {
            if old(self).is_exhausted() {
                assert(out@ =~= Seq::<u64>::empty());
            } else {
                assert(out@ =~= old(self).data().skip(old(self).spec_pos()));
            }
        }
        out
    }
}

/// From the start of a sorted column, the seek target's lower bound is
/// the least value at least the target, when any value reaches it.
pub proof fn lemma_lower_bound_least(s: Seq<u64>, t: u64)
    requires
        crate::seq_sorted(s),
    ensures
        ({
            let i = lower_bound_from(s, 0, t);
            &&& (i < s.len() ==> s[i] >= t
                && forall|j: int| 0 <= j < s.len() && s[j] >= t ==> s[i] <= s[j])
            &&& (i == s.len() ==> forall|j: int| 0 <= j < s.len() ==> s[j] < t)
        }),
{
    lemma_lower_bound_from(s, 0, t);
    let i = lower_bound_from(s, 0, t);
    if i < s.len() {
        assert forall|j: int| 0 <= j < s.len() && s[j] >= t implies s[i] <= s[j] by {
            if j < i {
                assert(s[j] < t);
            }
        }
    }
}

/// Sequential seeks with ascending targets never move the cursor
/// backward: the position after the second seek is at least the
/// position after the first.
pub proof fn lemma_seek_monotone(s: Seq<u64>, base: int, t1: u64, t2: u64)
    requires
        0 <= base <= s.len(),
        t1 <= t2,
    ensures
        lower_bound_from(s, lower_bound_from(s, base, t1), t2)
            >= lower_bound_from(s, base, t1),
        lower_bound_from(s, base, t2) >= lower_bound_from(s, base, t1),
    decreases s.len() - base,
{
    lemma_lower_bound_from(s, base, t1);
    lemma_lower_bound_from(s, lower_bound_from(s, base, t1), t2);
    if base < s.len() && s[base] < t1 {
        lemma_seek_monotone(s, base + 1, t1, t2);
    } else if base < s.len() && s[base] < t2 {
        lemma_lower_bound_from(s, base, t2);
    }
}

} // verus!
