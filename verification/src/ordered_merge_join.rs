//! The leapfrog merge-join: a column scan over the intersection of a
//! family of strictly ascending column scans.  A round-robin of seeks
//! raises a running maximum until every sub-scan agrees on it; each
//! agreed value is one element of the intersection, emitted in
//! ascending order.

use vstd::prelude::*;
use crate::column_scan::GenericColumnScan;
use crate::seq_sorted_strict;

verus! {

/// `w` can still be produced by `sc`: it sits at or after the cursor.
pub open spec fn scan_reachable<'a>(sc: GenericColumnScan<'a>, w: u64) -> bool {
    exists|j: int| sc.front() <= j < sc.data().len() && sc.data()[j] == w
}

/// How many values scan `sc` can still move over.
pub closed spec fn remaining<'a>(sc: GenericColumnScan<'a>) -> int {
    if 0 <= sc.spec_pos() <= sc.data().len() + 1 {
        sc.data().len() + 1 - sc.spec_pos()
    } else {
        0
    }
}

/// The total of `remaining` over a family of scans.
pub closed spec fn sum_remaining<'a>(scans: Seq<GenericColumnScan<'a>>) -> int
    decreases scans.len(),
{
    if scans.len() == 0 {
        0
    } else {
        sum_remaining(scans.drop_last()) + remaining(scans.last())
    }
}

proof fn lemma_sum_nonneg<'a>(scans: Seq<GenericColumnScan<'a>>)
    ensures
        sum_remaining(scans) >= 0,
    decreases scans.len(),
{
    if scans.len() > 0 {
        lemma_sum_nonneg(scans.drop_last());
    }
}

proof fn lemma_sum_update<'a>(
    scans: Seq<GenericColumnScan<'a>>,
    i: int,
    sc: GenericColumnScan<'a>,
)
    requires
        0 <= i < scans.len(),
    ensures
        sum_remaining(scans.update(i, sc))
            == sum_remaining(scans) - remaining(scans[i]) + remaining(sc),
    decreases scans.len(),
{
    let upd = scans.update(i, sc);
    if i == scans.len() - 1 {
        assert(upd.drop_last() =~= scans.drop_last());
        assert(upd.last() == sc);
    } else {
        assert(upd.drop_last() =~= scans.drop_last().update(i, sc));
        assert(upd.last() == scans.last());
        lemma_sum_update(scans.drop_last(), i, sc);
    }
}

/// The index `j` in round-robin order counting backward from `active`.
spec fn idx_back(active: int, j: int, len: int) -> int {
    if active >= j {
        active - j
    } else {
        active + len - j
    }
}

/// The merge-join over a non-empty family of sub-scans.
pub struct OrderedMergeJoin<'a> {
    column_scans: Vec<GenericColumnScan<'a>>,
    active_scan: usize,
    active_max: Option<u64>,
    current: Option<u64>,
}

impl<'a> OrderedMergeJoin<'a> {
    /// The family of sub-scans.
    pub closed spec fn scans(&self) -> Seq<GenericColumnScan<'a>> {
        self.column_scans@
    }

    /// The value of the most recent successful `next` or `seek`.
    pub closed spec fn spec_current(&self) -> Option<u64> {
        self.current
    }

    spec fn spec_active(&self) -> int {
        self.active_scan as int
    }

    spec fn spec_active_max(&self) -> Option<u64> {
        self.active_max
    }

    /// `v` occurs in every sub-scan's column.
    pub open spec fn is_common(&self, v: u64) -> bool {
        forall|i: int| 0 <= i < self.scans().len() ==> self.scans()[i].data().contains(v)
    }

    /// No sub-scan has produced a value yet.
    pub open spec fn is_join_fresh(&self) -> bool {
        forall|i: int| 0 <= i < self.scans().len() ==> self.scans()[i].is_fresh()
    }

    /// The join can still produce values (it is fresh or positioned;
    /// once it has returned `None` it is dead).
    pub open spec fn live(&self) -> bool {
        self.spec_current() is Some || self.is_join_fresh()
    }

    /// `v` lies beyond everything the join has already emitted.
    pub open spec fn above_floor(&self, v: u64) -> bool {
        match self.spec_current() {
            Some(c) => v > c,
            None => self.is_join_fresh(),
        }
    }

    /// `v` is a value `seek(t)` is allowed to return: at least `t`, and
    /// at least the value the join stands on.
    pub open spec fn seek_admissible(&self, t: u64, v: u64) -> bool {
        &&& self.live()
        &&& v >= t
        &&& match self.spec_current() {
            Some(c) => v >= c,
            None => true,
        }
    }

    spec fn inv_core(&self) -> bool {
        &&& self.scans().len() >= 1
        &&& 0 <= self.spec_active() < self.scans().len()
        &&& forall|i: int| 0 <= i < self.scans().len() ==> (#[trigger] self.scans()[i]).wf()
        &&& forall|i: int| 0 <= i < self.scans().len()
            ==> seq_sorted_strict((#[trigger] self.scans()[i]).data())
    }

    /// The join's invariant: while a value is current every sub-scan
    /// stands exactly on it; otherwise the join is fresh or its active
    /// scan is exhausted.
    pub closed spec fn inv(&self) -> bool {
        &&& self.inv_core()
        &&& match self.current {
            Some(c) => forall|i: int| 0 <= i < self.scans().len()
                ==> (#[trigger] self.scans()[i]).current_spec() == Some(c),
            None => self.is_join_fresh()
                || self.scans()[self.spec_active()].is_exhausted(),
        }
    }

    /// A termination measure for draining loops: it never grows, and it
    /// shrinks with every successful `next`.
    pub closed spec fn measure(&self) -> int {
        sum_remaining(self.scans())
    }

    /// The measure is never negative.
    pub proof fn lemma_measure_nonneg(&self)
        ensures
            self.measure() >= 0,
    {
        lemma_sum_nonneg(self.scans());
    }

    /// Join a non-empty family of fresh scans over strictly ascending data.
    pub fn new(column_scans: Vec<GenericColumnScan<'a>>) -> (r: OrderedMergeJoin<'a>)
        requires
            column_scans@.len() >= 1,
            forall|i: int| 0 <= i < column_scans@.len()
                ==> (#[trigger] column_scans@[i]).wf(),
            forall|i: int| 0 <= i < column_scans@.len()
                ==> seq_sorted_strict((#[trigger] column_scans@[i]).data()),
            forall|i: int| 0 <= i < column_scans@.len()
                ==> (#[trigger] column_scans@[i]).is_fresh(),
        ensures
            r.inv(),
            r.is_join_fresh(),
            r.spec_current() is None,
            r.scans() == column_scans@,
    {
        OrderedMergeJoin { column_scans, active_scan: 0, active_max: None, current: None }
    }

    /// The value of the most recent successful `next` or `seek`.
    pub fn current(&self) -> (r: Option<u64>)
        ensures
            r == self.spec_current(),
    {
        self.current
    }

    /// Return the join and every sub-scan to the pre-start state.
    pub fn reset(&mut self)
        requires
            old(self).inv(),
        ensures
            final(self).inv(),
            final(self).is_join_fresh(),
            final(self).spec_current() is None,
            final(self).scans().len() == old(self).scans().len(),
            forall|i: int| 0 <= i < old(self).scans().len()
                ==> (#[trigger] final(self).scans()[i]).data() == old(self).scans()[i].data(),
    {
        self.active_scan = 0;
        self.active_max = None;
        self.current = None;
        let n = self.column_scans.len();
        let mut i: usize = 0;
        while i < n
            invariant
                n == self.column_scans@.len(),
                n == old(self).scans().len(),
                i <= n,
                n >= 1,
                forall|k: int| 0 <= k < n ==> (#[trigger] self.column_scans@[k]).wf(),
                forall|k: int| 0 <= k < n
                    ==> seq_sorted_strict((#[trigger] self.column_scans@[k]).data()),
                forall|k: int| 0 <= k < n ==> (#[trigger] self.column_scans@[k]).data()
                    == old(self).scans()[k].data(),
                forall|k: int| 0 <= k < i ==> (#[trigger] self.column_scans@[k]).is_fresh(),
                self.active_scan == 0,
                self.active_max is None,
                self.current is None,
            decreases n - i,
        {
            self.column_scans[i].reset();
            i = i + 1;
        }
    }

    /// The round-robin matching loop: raise the running maximum by
    /// seeking each scan in turn until all of them stand on one value
    /// (the least common value at or above the entry maximum), or some
    /// scan runs out (there is no such value).
    fn next_loop(&mut self) -> (r: Option<u64>)
        requires
            old(self).inv_core(),
            old(self).scans().len() >= 2,
            old(self).spec_active_max() is Some,
            old(self).scans()[old(self).spec_active()].current_spec()
                == Some(old(self).spec_active_max()->0),
            forall|i: int| 0 <= i < old(self).scans().len()
                ==> match (#[trigger] old(self).scans()[i]).current_spec() {
                    Some(ci) => ci <= old(self).spec_active_max()->0,
                    None => old(self).scans()[i].is_fresh(),
                },
            forall|w: u64, i: int|
                old(self).is_common(w) && w >= old(self).spec_active_max()->0
                    && 0 <= i < old(self).scans().len()
                ==> #[trigger] scan_reachable(old(self).scans()[i], w),
        ensures
            final(self).inv(),
            final(self).scans().len() == old(self).scans().len(),
            forall|i: int| 0 <= i < old(self).scans().len()
                ==> (#[trigger] final(self).scans()[i]).data() == old(self).scans()[i].data(),
            r == final(self).spec_current(),
            final(self).measure() <= old(self).measure(),
            r is None ==> !final(self).live(),
            match r {
                Some(v) => final(self).is_common(v)
                    && v >= old(self).spec_active_max()->0
                    && forall|w: u64|
                        old(self).is_common(w) && w >= old(self).spec_active_max()->0
                            ==> w >= v,
                None => forall|w: u64|
                    old(self).is_common(w) ==> w < old(self).spec_active_max()->0,
            },
    {
        let len = self.column_scans.len();
        let mut am_val: u64 = self.active_max.unwrap();
        let mut matched: usize = 1;
        let ghost am0 = am_val;
        loop
            invariant
                len == self.column_scans@.len(),
                len == old(self).scans().len(),
                len >= 2,
                self.active_scan < len,
                forall|i: int| 0 <= i < len ==> (#[trigger] self.column_scans@[i]).wf(),
                forall|i: int| 0 <= i < len
                    ==> seq_sorted_strict((#[trigger] self.column_scans@[i]).data()),
                forall|i: int| 0 <= i < len ==> (#[trigger] self.column_scans@[i]).data()
                    == old(self).scans()[i].data(),
                self.active_max == Some(am_val),
                am_val >= am0,
                am0 == old(self).spec_active_max()->0,
                1 <= matched < len,
                forall|j: int| 0 <= j < matched
                    ==> (#[trigger] self.column_scans@[
                        idx_back(self.active_scan as int, j, len as int)
                    ]).current_spec() == Some(am_val),
                forall|i: int| 0 <= i < len
                    ==> match (#[trigger] self.column_scans@[i]).current_spec() {
                        Some(ci) => ci <= am_val,
                        None => self.column_scans@[i].is_fresh(),
                    },
                forall|w: u64, i: int|
                    old(self).is_common(w) && w >= am0 && 0 <= i < len
                    ==> #[trigger] scan_reachable(self.column_scans@[i], w),
                forall|w: u64| old(self).is_common(w) && w >= am0 ==> w >= am_val,
                sum_remaining(self.column_scans@) <= old(self).measure(),
            decreases sum_remaining(self.column_scans@), len - matched,
        {
            let idx = if self.active_scan + 1 == len { 0 } else { self.active_scan + 1 };
            let ghost prev_active = self.active_scan as int;
            self.active_scan = idx;
            let ghost pre = self.column_scans@;
            let ghost prev = pre[idx as int];
            proof {
                lemma_sum_nonneg(pre);
                assert(crate::seq_sorted(prev.data()));
            }
            let sr = self.column_scans[idx].seek(am_val);
            let ghost cur = self.column_scans@[idx as int];
            proof {
                assert(self.column_scans@ =~= pre.update(idx as int, cur));
                lemma_sum_update(pre, idx as int, cur);
                lemma_sum_nonneg(self.column_scans@);
                assert(remaining(cur) <= remaining(prev));
                crate::column_scan::lemma_lower_bound_from(
                    prev.data(), prev.front(), am_val);
                // Values the seek moved over are below the running
                // maximum, so reachability above it is preserved.
                assert forall|w: u64, i: int|
                    old(self).is_common(w) && w >= am0 && 0 <= i < len
                    implies #[trigger] scan_reachable(self.column_scans@[i], w) by {
                    if i == idx as int {
                        assert(scan_reachable(prev, w));
                        let jw = choose|j: int|
                            prev.front() <= j < prev.data().len() && prev.data()[j] == w;
                        assert(w >= am_val);
                        assert(cur.front()
                            == crate::column_scan::lower_bound_from(
                                prev.data(), prev.front(), am_val));
                        if jw < crate::column_scan::lower_bound_from(
                            prev.data(), prev.front(), am_val) {
                            assert(prev.data()[jw] < am_val);
                            assert(false);
                        }
                        assert(scan_reachable(cur, w));
                    } else {
                        assert(self.column_scans@[i] == pre[i]);
                    }
                }
            }
            match sr {
                Some(found) => {
                    if found == am_val {
                        matched = matched + 1;
                        proof {
                            assert forall|j: int| 0 <= j < matched implies
                                (#[trigger] self.column_scans@[
                                    idx_back(self.active_scan as int, j, len as int)
                                ]).current_spec() == Some(am_val) by {
                                if j == 0 {
                                    assert(idx_back(idx as int, 0, len as int) == idx as int);
                                } else {
                                    assert(idx_back(idx as int, j, len as int)
                                        == idx_back(prev_active, j - 1, len as int));
                                    assert(pre[idx_back(prev_active, j - 1, len as int)]
                                        .current_spec() == Some(am_val));
                                    if idx_back(prev_active, j - 1, len as int) == idx as int {
                                        assert(self.column_scans@[idx as int].current_spec()
                                            == Some(am_val));
                                    }
                                }
                            }
                        }
                        if matched == len {
                            self.current = Some(am_val);
                            proof {
                                assert forall|i: int| 0 <= i < len implies
                                    (#[trigger] self.column_scans@[i]).current_spec()
                                        == Some(am_val) by {
                                    let j = if self.active_scan as int >= i {
                                        self.active_scan as int - i
                                    } else {
                                        self.active_scan as int + len - i
                                    };
                                    assert(0 <= j < len);
                                    assert(idx_back(self.active_scan as int, j, len as int) == i);
                                    assert(self.column_scans@[
                                        idx_back(self.active_scan as int, j, len as int)
                                    ].current_spec() == Some(am_val));
                                }
                                assert forall|i: int| 0 <= i < len implies
                                    (#[trigger] self.column_scans@[i]).data().contains(am_val) by {
                                    let sc = self.column_scans@[i];
                                    assert(sc.current_spec() == Some(am_val));
                                    assert(sc.data()[sc.spec_pos() - 1] == am_val);
                                }
                            }
                            return Some(am_val);
                        }
                    } else {
                        proof {
                            // The seek strictly advanced: the scan's
                            // previous value was below the maximum.
                            let lbf = crate::column_scan::lower_bound_from(
                                prev.data(), prev.front(), am_val);
                            if prev.spec_pos() > 0 && !prev.is_exhausted() {
                                if prev.data()[prev.front()] >= am_val {
                                    assert(lbf == prev.front());
                                    assert(found == prev.data()[prev.front()]);
                                    assert(prev.current_spec()
                                        == Some(prev.data()[prev.front()]));
                                    assert(prev.data()[prev.front()] <= am_val);
                                    assert(found == am_val);
                                    assert(false);
                                }
                                assert(lbf > prev.front());
                                assert(cur.spec_pos() > prev.spec_pos());
                            } else if prev.spec_pos() == 0 {
                                assert(cur.spec_pos() > 0);
                            } else {
                                // exhausted scans cannot return a value
                                assert(prev.front() == prev.data().len());
                                assert(lbf == prev.data().len());
                                assert(false);
                            }
                            assert(remaining(cur) < remaining(prev));
                            assert(sum_remaining(self.column_scans@) < sum_remaining(pre));
                            // Minimality moves up to the new maximum.
                            assert forall|w: u64|
                                old(self).is_common(w) && w >= am0 implies w >= found by {
                                assert(scan_reachable(cur, w));
                                let jw = choose|j: int|
                                    cur.front() <= j < cur.data().len() && cur.data()[j] == w;
                                assert(cur.data()[cur.front()] == found);
                                assert(w >= am_val);
                                if jw == cur.front() {
                                } else {
                                    assert(cur.data()[cur.front()] < cur.data()[jw]);
                                }
                            }
                        }
                        self.active_max = Some(found);
                        am_val = found;
                        matched = 1;
                        proof {
                            assert(idx_back(idx as int, 0, len as int) == idx as int);
                            assert(cur.current_spec() == Some(found));
                        }
                    }
                }
                None => {
                    self.current = None;
                    self.active_max = None;
                    proof {
                        assert(cur.is_exhausted());
                        assert(!self.column_scans@[idx as int].is_fresh());
                        assert(!self.scans()[idx as int].is_fresh());
                        assert(!self.is_join_fresh());
                        assert forall|w: u64| old(self).is_common(w) implies w < am0 by {
                            if w >= am0 {
                                assert(w >= am_val);
                                assert(scan_reachable(cur, w));
                                let jw = choose|j: int|
                                    cur.front() <= j < cur.data().len() && cur.data()[j] == w;
                                assert(cur.front() == cur.data().len());
                                assert(false);
                            }
                        }
                    }
                    return None;
                }
            }
        }
    }

    /// Advance to the next value of the intersection: the least value
    /// common to all sub-scans and beyond the last emitted one.
    pub fn next(&mut self) -> (r: Option<u64>)
        requires
            old(self).inv(),
        ensures
            final(self).inv(),
            final(self).scans().len() == old(self).scans().len(),
            forall|i: int| 0 <= i < old(self).scans().len()
                ==> (#[trigger] final(self).scans()[i]).data() == old(self).scans()[i].data(),
            r == final(self).spec_current(),
            final(self).measure() <= old(self).measure(),
            r is Some ==> final(self).measure() < old(self).measure(),
            r is None ==> !final(self).live(),
            match r {
                Some(v) => old(self).above_floor(v) && old(self).is_common(v)
                    && forall|w: u64|
                        old(self).is_common(w) && old(self).above_floor(w) ==> w >= v,
                None => forall|w: u64| old(self).is_common(w) ==> !old(self).above_floor(w),
            },
    {
        let len = self.column_scans.len();
        let idx = self.active_scan;
        let ghost pre = self.column_scans@;
        let ghost prev = pre[idx as int];
        let sr = self.column_scans[idx].next();
        let ghost cur = self.column_scans@[idx as int];
        proof {
            assert(self.column_scans@ =~= pre.update(idx as int, cur));
            lemma_sum_update(pre, idx as int, cur);
            lemma_sum_nonneg(self.column_scans@);
            assert forall|i: int| 0 <= i < len implies
                (#[trigger] self.column_scans@[i]).data()
                    == old(self).scans()[i].data() by {
                if i != idx as int {
                    assert(self.column_scans@[i] == pre[i]);
                }
            }
        }
        match sr {
            None => {
                self.active_max = None;
                self.current = None;
                proof {
                    assert(cur.is_exhausted());
                    assert(!self.scans()[idx as int].is_fresh());
                    assert(!self.is_join_fresh());
                    assert forall|w: u64|
                        old(self).is_common(w) implies !old(self).above_floor(w) by {
                        match old(self).spec_current() {
                            Some(c) => {
                                if w > c {
                                    assert(prev.current_spec() == Some(c));
                                    assert(prev.data().contains(w));
                                    let jw = choose|j: int|
                                        0 <= j < prev.data().len() && prev.data()[j] == w;
                                    assert(prev.data()[prev.spec_pos() - 1] == c);
                                    if jw < prev.spec_pos() - 1 {
                                        assert(prev.data()[jw] < c);
                                    } else if jw == prev.spec_pos() - 1 {
                                    } else {
                                        // next returned None, so the scan stood on
                                        // its last value
                                        assert(cur.spec_pos() == prev.spec_pos() + 1);
                                        assert(cur.current_spec() is None);
                                        assert(jw < prev.data().len());
                                        assert(false);
                                    }
                                    assert(false);
                                }
                            },
                            None => {
                                if old(self).is_join_fresh() {
                                    assert(prev.is_fresh());
                                    assert(cur.current_spec() is None);
                                    assert(prev.data().len() == 0);
                                    assert(!prev.data().contains(w));
                                    assert(false);
                                }
                            },
                        }
                    }
                }
                None
            },
            Some(am) => {
                self.active_max = Some(am);
                proof {
                    assert(cur.current_spec() == Some(am));
                    assert(cur.spec_pos() == prev.spec_pos() + 1);
                    match old(self).spec_current() {
                        Some(c) => {
                            assert(prev.current_spec() == Some(c));
                            assert(prev.data()[prev.spec_pos() - 1] == c);
                            assert(cur.data()[cur.spec_pos() - 1] == am);
                            assert(c < am);
                        },
                        None => {
                            if !old(self).is_join_fresh() {
                                assert(prev.is_exhausted());
                                assert(false);
                            }
                            assert(prev.is_fresh());
                        },
                    }
                    // every common value above the floor is at least `am`,
                    // and reachable by every scan
                    assert forall|w: u64|
                        old(self).is_common(w) && old(self).above_floor(w)
                        implies w >= am by {
                        assert(prev.data().contains(w));
                        let jw = choose|j: int|
                            0 <= j < prev.data().len() && prev.data()[j] == w;
                        match old(self).spec_current() {
                            Some(c) => {
                                assert(prev.data()[prev.spec_pos() - 1] == c);
                                assert(w > c);
                                if jw <= prev.spec_pos() - 1 {
                                    assert(prev.data()[jw] <= c);
                                    assert(false);
                                }
                                assert(jw >= cur.spec_pos() - 1);
                                if jw > cur.spec_pos() - 1 {
                                    assert(prev.data()[cur.spec_pos() - 1] < prev.data()[jw]);
                                }
                            },
                            None => {
                                assert(cur.spec_pos() == 1);
                                if jw > 0 {
                                    assert(prev.data()[0] < prev.data()[jw]);
                                }
                            },
                        }
                    }
                }
                if len > 1 {
                    proof {
                        // pre-conditions of the matching loop
                        assert forall|i: int| 0 <= i < len implies
                            match (#[trigger] self.column_scans@[i]).current_spec() {
                                Some(ci) => ci <= am,
                                None => self.column_scans@[i].is_fresh(),
                            } by {
                            if i != idx as int {
                                assert(self.column_scans@[i] == pre[i]);
                                match old(self).spec_current() {
                                    Some(c) => {
                                        assert(pre[i].current_spec() == Some(c));
                                    },
                                    None => {
                                        assert(pre[i].is_fresh());
                                    },
                                }
                            }
                        }
                        assert forall|w: u64, i: int|
                            self.is_common(w) && w >= am && 0 <= i < len
                            implies #[trigger] scan_reachable(self.column_scans@[i], w) by {
                            let sc = self.column_scans@[i];
                            assert(sc == self.scans()[i]);
                            assert(self.scans()[i].data().contains(w));
                            assert(sc.data().contains(w));
                            let jw = choose|j: int|
                                0 <= j < sc.data().len() && sc.data()[j] == w;
                            if i == idx as int {
                                assert(sc.data()[sc.spec_pos() - 1] == am);
                                if jw < sc.spec_pos() - 1 {
                                    assert(sc.data()[jw] < am);
                                    assert(false);
                                }
                                assert(scan_reachable(sc, w));
                            } else {
                                match old(self).spec_current() {
                                    Some(c) => {
                                        assert(sc == pre[i]);
                                        assert(sc.current_spec() == Some(c));
                                        assert(sc.data()[sc.spec_pos() - 1] == c);
                                        if jw < sc.spec_pos() - 1 {
                                            assert(sc.data()[jw] < c);
                                            assert(c < am);
                                            assert(false);
                                        }
                                        assert(scan_reachable(sc, w));
                                    },
                                    None => {
                                        assert(sc.is_fresh());
                                        assert(scan_reachable(sc, w));
                                    },
                                }
                            }
                        }
                        assert(old(self).is_common(am) ==> self.is_common(am));
                        assert forall|w: u64| self.is_common(w) implies
                            old(self).is_common(w) by {
                            assert forall|i: int| 0 <= i < len implies
                                (#[trigger] old(self).scans()[i]).data().contains(w) by {
                                assert(self.scans()[i].data().contains(w));
                                assert(self.scans()[i].data()
                                    == old(self).scans()[i].data());
                            }
                        }
                        assert forall|w: u64| old(self).is_common(w) implies
                            self.is_common(w) by {
                            assert forall|i: int| 0 <= i < len implies
                                (#[trigger] self.scans()[i]).data().contains(w) by {
                                assert(old(self).scans()[i].data().contains(w));
                                assert(self.scans()[i].data()
                                    == old(self).scans()[i].data());
                            }
                        }
                    }
                    let ghost mid = *self;
                    let r2 = self.next_loop();
                    proof {
                        if r2 is Some {
                            let v = r2->0;
                            assert(v >= am);
                            assert forall|i: int| 0 <= i < len implies
                                (#[trigger] old(self).scans()[i]).data().contains(v) by {
                                assert(self.scans()[i].data().contains(v));
                                assert(self.scans()[i].data() == mid.scans()[i].data());
                                assert(mid.scans()[i].data()
                                    == old(self).scans()[i].data());
                            }
                            assert(old(self).is_common(v));
                            match old(self).spec_current() {
                                Some(c) => {
                                    assert(c < am);
                                },
                                None => {},
                            }
                        }
                    }
                    r2
                } else {
                    self.current = Some(am);
                    proof {
                        assert(cur.data().contains(am)) by {
                            assert(cur.data()[cur.spec_pos() - 1] == am);
                        }
                        assert forall|i: int| 0 <= i < len implies
                            (#[trigger] self.column_scans@[i]).current_spec()
                                == Some(am) by {
                            assert(i == idx as int);
                        }
                    }
                    Some(am)
                }
            },
        }
    }

    /// Position at the least value of the intersection that is at least
    /// `value` (and at least the value the join stands on).
    pub fn seek(&mut self, value: u64) -> (r: Option<u64>)
        requires
            old(self).inv(),
        ensures
            final(self).inv(),
            final(self).scans().len() == old(self).scans().len(),
            forall|i: int| 0 <= i < old(self).scans().len()
                ==> (#[trigger] final(self).scans()[i]).data() == old(self).scans()[i].data(),
            r == final(self).spec_current(),
            final(self).measure() <= old(self).measure(),
            r is None ==> !final(self).live(),
            match r {
                Some(v) => old(self).seek_admissible(value, v) && old(self).is_common(v)
                    && forall|w: u64|
                        old(self).is_common(w) && old(self).seek_admissible(value, w)
                            ==> w >= v,
                None => forall|w: u64|
                    old(self).is_common(w) ==> !old(self).seek_admissible(value, w),
            },
    {
        let len = self.column_scans.len();
        let idx = self.active_scan;
        let ghost pre = self.column_scans@;
        let ghost prev = pre[idx as int];
        proof {
            assert(crate::seq_sorted(prev.data()));
        }
        let sr = self.column_scans[idx].seek(value);
        let ghost cur = self.column_scans@[idx as int];
        proof {
            assert(self.column_scans@ =~= pre.update(idx as int, cur));
            lemma_sum_update(pre, idx as int, cur);
            lemma_sum_nonneg(self.column_scans@);
            crate::column_scan::lemma_lower_bound_from(prev.data(), prev.front(), value);
            assert forall|i: int| 0 <= i < len implies
                (#[trigger] self.column_scans@[i]).data()
                    == old(self).scans()[i].data() by {
                if i != idx as int {
                    assert(self.column_scans@[i] == pre[i]);
                }
            }
        }
        match sr {
            None => {
                self.active_max = None;
                self.current = None;
                proof {
                    assert(cur.is_exhausted());
                    assert(!self.scans()[idx as int].is_fresh());
                    assert(!self.is_join_fresh());
                    assert forall|w: u64| old(self).is_common(w) implies
                        !old(self).seek_admissible(value, w) by {
                        if old(self).seek_admissible(value, w) {
                            assert(prev.data().contains(w));
                            let jw = choose|j: int|
                                0 <= j < prev.data().len() && prev.data()[j] == w;
                            match old(self).spec_current() {
                                Some(c) => {
                                    assert(prev.current_spec() == Some(c));
                                    assert(prev.data()[prev.spec_pos() - 1] == c);
                                    if jw < prev.front() {
                                        assert(prev.data()[jw] < c);
                                        assert(false);
                                    }
                                },
                                None => {
                                    assert(old(self).is_join_fresh());
                                    assert(prev.is_fresh());
                                },
                            }
                            // the seek found nothing at or after the front
                            assert(jw >= prev.front());
                            assert(prev.data()[jw] < value);
                            assert(false);
                        }
                    }
                }
                None
            },
            Some(am) => {
                self.active_max = Some(am);
                proof {
                    assert(cur.current_spec() == Some(am));
                    assert(am >= value);
                    let lbf = crate::column_scan::lower_bound_from(
                        prev.data(), prev.front(), value);
                    assert(cur.spec_pos() == lbf + 1);
                    assert(cur.data()[lbf] == am);
                    match old(self).spec_current() {
                        Some(c) => {
                            assert(prev.current_spec() == Some(c));
                            assert(prev.data()[prev.spec_pos() - 1] == c);
                            assert(prev.front() == prev.spec_pos() - 1);
                            assert(prev.data()[prev.front()] <= prev.data()[lbf]
                                || prev.front() == lbf);
                            assert(c <= am);
                        },
                        None => {
                            if !old(self).is_join_fresh() {
                                assert(prev.is_exhausted());
                                assert(false);
                            }
                            assert(prev.is_fresh());
                        },
                    }
                    // every admissible common value is at least `am`
                    assert forall|w: u64|
                        old(self).is_common(w) && old(self).seek_admissible(value, w)
                        implies w >= am by {
                        assert(prev.data().contains(w));
                        let jw = choose|j: int|
                            0 <= j < prev.data().len() && prev.data()[j] == w;
                        match old(self).spec_current() {
                            Some(c) => {
                                assert(w >= c);
                                assert(prev.data()[prev.front()] == c);
                                if jw < prev.front() {
                                    assert(prev.data()[jw] < c);
                                    assert(false);
                                }
                            },
                            None => {},
                        }
                        assert(jw >= prev.front());
                        if jw < lbf {
                            assert(prev.data()[jw] < value);
                            assert(false);
                        }
                        if jw > lbf {
                            assert(prev.data()[lbf] < prev.data()[jw]);
                        }
                    }
                }
                if len > 1 {
                    proof {
                        assert forall|i: int| 0 <= i < len implies
                            match (#[trigger] self.column_scans@[i]).current_spec() {
                                Some(ci) => ci <= am,
                                None => self.column_scans@[i].is_fresh(),
                            } by {
                            if i != idx as int {
                                assert(self.column_scans@[i] == pre[i]);
                                match old(self).spec_current() {
                                    Some(c) => {
                                        assert(pre[i].current_spec() == Some(c));
                                    },
                                    None => {
                                        assert(pre[i].is_fresh());
                                    },
                                }
                            }
                        }
                        assert forall|w: u64, i: int|
                            self.is_common(w) && w >= am && 0 <= i < len
                            implies #[trigger] scan_reachable(self.column_scans@[i], w) by {
                            let sc = self.column_scans@[i];
                            assert(sc == self.scans()[i]);
                            assert(self.scans()[i].data().contains(w));
                            assert(sc.data().contains(w));
                            let jw = choose|j: int|
                                0 <= j < sc.data().len() && sc.data()[j] == w;
                            if i == idx as int {
                                assert(sc.data()[sc.spec_pos() - 1] == am);
                                if jw < sc.spec_pos() - 1 {
                                    assert(sc.data()[jw] < am);
                                    assert(false);
                                }
                                assert(scan_reachable(sc, w));
                            } else {
                                match old(self).spec_current() {
                                    Some(c) => {
                                        assert(sc == pre[i]);
                                        assert(sc.current_spec() == Some(c));
                                        assert(sc.data()[sc.spec_pos() - 1] == c);
                                        if jw < sc.spec_pos() - 1 {
                                            assert(sc.data()[jw] < c);
                                            assert(c <= am);
                                            assert(false);
                                        }
                                        assert(scan_reachable(sc, w));
                                    },
                                    None => {
                                        assert(sc.is_fresh());
                                        assert(scan_reachable(sc, w));
                                    },
                                }
                            }
                        }
                        assert forall|w: u64| self.is_common(w) implies
                            old(self).is_common(w) by {
                            assert forall|i: int| 0 <= i < len implies
                                (#[trigger] old(self).scans()[i]).data().contains(w) by {
                                assert(self.scans()[i].data().contains(w));
                                assert(self.scans()[i].data()
                                    == old(self).scans()[i].data());
                            }
                        }
                        assert forall|w: u64| old(self).is_common(w) implies
                            self.is_common(w) by {
                            assert forall|i: int| 0 <= i < len implies
                                (#[trigger] self.scans()[i]).data().contains(w) by {
                                assert(old(self).scans()[i].data().contains(w));
                                assert(self.scans()[i].data()
                                    == old(self).scans()[i].data());
                            }
                        }
                    }
                    let ghost mid = *self;
                    let r2 = self.next_loop();
                    proof {
                        if r2 is Some {
                            let v = r2->0;
                            assert(v >= am);
                            assert forall|i: int| 0 <= i < len implies
                                (#[trigger] old(self).scans()[i]).data().contains(v) by {
                                assert(self.scans()[i].data().contains(v));
                                assert(self.scans()[i].data() == mid.scans()[i].data());
                                assert(mid.scans()[i].data()
                                    == old(self).scans()[i].data());
                            }
                            assert(old(self).is_common(v));
                        }
                    }
                    r2
                } else {
                    self.current = Some(am);
                    proof {
                        assert(cur.data().contains(am)) by {
                            assert(cur.data()[cur.spec_pos() - 1] == am);
                        }
                        assert forall|i: int| 0 <= i < len implies
                            (#[trigger] self.column_scans@[i]).current_spec()
                                == Some(am) by {
                            assert(i == idx as int);
                        }
                    }
                    Some(am)
                }
            },
        }
    }

    /// Drain the join from its fresh state: the result is exactly the
    /// set of values common to all sub-scans, in strictly ascending
    /// order.
    pub fn drain(&mut self) -> (r: Vec<u64>)
        requires
            old(self).inv(),
            old(self).is_join_fresh(),
        ensures
            seq_sorted_strict(r@),
            forall|v: u64| #[trigger] r@.contains(v) <==> old(self).is_common(v),
    {
        let mut out: Vec<u64> = Vec::new();
        proof {
            self.lemma_measure_nonneg();
        }
        loop
            invariant
                self.inv(),
                self.scans().len() == old(self).scans().len(),
                forall|i: int| 0 <= i < old(self).scans().len()
                    ==> (#[trigger] self.scans()[i]).data() == old(self).scans()[i].data(),
                self.measure() >= 0,
                seq_sorted_strict(out@),
                forall|v: u64| #[trigger] out@.contains(v) ==> old(self).is_common(v),
                match self.spec_current() {
                    Some(c) => out@.len() > 0 && out@.last() == c
                        && (forall|v: u64| #[trigger] out@.contains(v) ==> v <= c)
                        && (forall|w: u64|
                            old(self).is_common(w) && w <= c ==> out@.contains(w)),
                    None => (self.is_join_fresh() && out@.len() == 0)
                        || (!self.live()
                            && forall|w: u64| old(self).is_common(w) ==> out@.contains(w)),
                },
            ensures
                forall|v: u64| #[trigger] out@.contains(v) <==> old(self).is_common(v),
                seq_sorted_strict(out@),
            decreases self.measure(),
        {
            let ghost floor = self.spec_current();
            let ghost st = *self;
            proof {
                assert forall|w: u64| st.is_common(w) implies old(self).is_common(w) by {
                    assert forall|i: int| 0 <= i < old(self).scans().len() implies
                        (#[trigger] old(self).scans()[i]).data().contains(w) by {
                        assert(st.scans()[i].data() == old(self).scans()[i].data());
                    }
                }
                assert forall|w: u64| old(self).is_common(w) implies st.is_common(w) by {
                    assert forall|i: int| 0 <= i < old(self).scans().len() implies
                        (#[trigger] st.scans()[i]).data().contains(w) by {
                        assert(st.scans()[i].data() == old(self).scans()[i].data());
                    }
                }
            }
            let v = self.next();
            proof {
                self.lemma_measure_nonneg();
            }
            match v {
                Some(x) => {
                    let ghost preout = out@;
                    proof {
                        assert forall|k: int| 0 <= k < preout.len() implies
                            preout[k] < x by {
                        match floor {
                            Some(c) => {
                                assert(preout.contains(preout[k]));
                                assert(preout[k] <= c);
                                assert(st.above_floor(x));
                            },
                            None => {
                                assert(st.is_join_fresh());
                                assert(preout.len() == 0);
                            },
                        }
                        }
                    }
                    out.push(x);
                    proof {
                        assert(out@ == preout.push(x));
                        assert(out@.last() == x);
                        assert forall|v2: u64| #[trigger] out@.contains(v2) implies
                            old(self).is_common(v2) && v2 <= x by {
                            let k = choose|k: int| 0 <= k < out@.len() && out@[k] == v2;
                            if k < preout.len() {
                                assert(preout.contains(v2));
                            } else {
                                assert(v2 == x);
                                assert(st.is_common(x));
                            }
                        }
                        assert forall|w: u64|
                            old(self).is_common(w) && w <= x implies out@.contains(w) by {
                            if w == x {
                                assert(out@[out@.len() - 1] == x);
                            } else {
                                assert(w < x);
                                match floor {
                                    Some(c) => {
                                        if w > c {
                                            assert(st.is_common(w) && st.above_floor(w));
                                            assert(false);
                                        }
                                        assert(preout.contains(w));
                                        let k = choose|k: int|
                                            0 <= k < preout.len() && preout[k] == w;
                                        assert(out@[k] == w);
                                    },
                                    None => {
                                        assert(st.is_join_fresh());
                                        assert(st.is_common(w) && st.above_floor(w));
                                        assert(false);
                                    },
                                }
                            }
                        }
                        assert(seq_sorted_strict(out@)) by {
                            assert forall|i: int, j: int|
                                0 <= i < j < out@.len() implies out@[i] < out@[j] by {
                                if j < preout.len() {
                                } else {
                                    assert(out@[j] == x);
                                    assert(preout[i] < x);
                                }
                            }
                        }
                    }
                },
                None => {
                    proof {
                        assert(!self.live());
                        assert forall|w: u64| old(self).is_common(w) implies
                            out@.contains(w) by {
                            assert(st.is_common(w));
                            assert(!st.above_floor(w));
                            match floor {
                                Some(c) => {
                                    assert(w <= c);
                                },
                                None => {
                                    assert(!st.is_join_fresh());
                                },
                            }
                        }
                    }
                    break;
                },
            }
        }
        out
    }
}

} // verus!
