//! Trie scans: a bundle of column scans, one per layer, that together
//! walk a trie in lexicographic order.  `down` narrows the next layer's
//! scan to the child range of the current value, `up` abandons a layer
//! and resets its scan.  The prune wrappers enumerate exactly what the
//! inner scan enumerates: a stored trie holds no prefix without a
//! completion, so there is nothing to hide.

use vstd::prelude::*;
use crate::column_scan::GenericColumnScan;
use crate::seq_sorted_strict;
use crate::trie::Trie;

verus! {

/// The storage index a positioned scan stands on.
pub open spec fn scan_position<'a>(sc: GenericColumnScan<'a>) -> int {
    sc.spec_lower() + sc.front()
}

/// A child range of a well-formed trie is strictly sorted.
proof fn lemma_child_range_sorted(t: Trie, l: int, p: int, data: Seq<u64>)
    requires
        t.wf(),
        0 <= l < t.spec_arity() - 1,
        0 <= p < t.layer(l).len(),
        p + 1 < t.offsets(l).len(),
        t.offsets(l)[p] <= t.offsets(l)[p + 1],
        t.offsets(l)[p + 1] <= t.layer(l + 1).len(),
        data == t.layer(l + 1).subrange(
            t.offsets(l)[p] as int, t.offsets(l)[p + 1] as int),
    ensures
        seq_sorted_strict(data),
{
    let clo = t.offsets(l)[p] as int;
    assert forall|a: int, b: int| 0 <= a < b < data.len() implies
        data[a] < data[b] by {
        assert(t.offsets(l)[p] <= clo + a);
        assert(data[a] == t.layer(l + 1)[clo + a]);
        assert(data[b] == t.layer(l + 1)[clo + b]);
    }
}

/// A depth-first cursor over a stored trie.
pub struct TrieScanGeneric<'a> {
    trie: &'a Trie,
    column_scans: Vec<GenericColumnScan<'a>>,
    current_layer: Option<usize>,
}

impl<'a> TrieScanGeneric<'a> {
    /// The trie walked over.
    pub closed spec fn spec_trie(&self) -> Trie {
        *self.trie
    }

    /// The per-layer scans.
    pub closed spec fn scans(&self) -> Seq<GenericColumnScan<'a>> {
        self.column_scans@
    }

    /// The active layer, if the scan has descended at all.
    pub closed spec fn spec_layer(&self) -> Option<usize> {
        self.current_layer
    }

    /// The scans walk the trie's columns: one scan per layer, each over
    /// its layer's column and a strictly sorted range; layers above the
    /// active one are positioned, and each positioned layer's successor
    /// (up to the active layer) ranges over its child interval.
    pub closed spec fn inv(&self) -> bool {
        &&& self.trie.wf()
        &&& self.column_scans@.len() == self.trie.spec_arity()
        &&& forall|l: int| 0 <= l < self.column_scans@.len()
            ==> (#[trigger] self.column_scans@[l]).wf()
        &&& forall|l: int| 0 <= l < self.column_scans@.len()
            ==> (#[trigger] self.column_scans@[l]).spec_column() == self.trie.layer(l)
        &&& self.column_scans@[0].spec_lower() == 0
        &&& self.column_scans@[0].data() == self.trie.layer(0)
        &&& match self.current_layer {
            Some(l) => l < self.column_scans@.len()
                && (forall|x: int| 0 <= x < l
                    ==> (#[trigger] self.column_scans@[x]).current_spec() is Some)
                && (forall|x: int| 1 <= x <= l ==> {
                    let parent = self.column_scans@[x - 1];
                    let child = #[trigger] self.column_scans@[x];
                    &&& 0 <= scan_position(parent) < self.trie.layer(x - 1).len()
                    &&& child.spec_lower()
                        == self.trie.offsets(x - 1)[scan_position(parent)]
                    &&& child.spec_lower() + child.data().len()
                        == self.trie.offsets(x - 1)[scan_position(parent) + 1]
                    &&& seq_sorted_strict(child.data())
                }),
            None => self.column_scans@[0].is_fresh(),
        }
    }

    /// A fresh scan over the whole trie, above the root layer.
    pub fn new(trie: &'a Trie) -> (r: TrieScanGeneric<'a>)
        requires
            trie.wf(),
        ensures
            r.inv(),
            r.spec_trie() == *trie,
            r.spec_layer() is None,
    {
        let arity = trie.columns.len();
        let mut column_scans: Vec<GenericColumnScan<'a>> = Vec::new();
        let mut l: usize = 0;
        while l < arity
            invariant
                arity == trie.columns@.len(),
                trie.wf(),
                l <= arity,
                column_scans@.len() == l,
                forall|x: int| 0 <= x < l ==> {
                    let sc = #[trigger] column_scans@[x];
                    &&& sc.wf()
                    &&& sc.spec_column() == trie.layer(x)
                    &&& sc.data() == trie.layer(x)
                    &&& sc.spec_lower() == 0
                    &&& sc.is_fresh()
                },
            decreases arity - l,
        {
            let sc = GenericColumnScan::new(&trie.columns[l]);
            proof {
                sc.lemma_range_in_column();
            }
            column_scans.push(sc);
            l = l + 1;
        }
        TrieScanGeneric { trie, column_scans, current_layer: None }
    }
}

impl<'a> TrieScanGeneric<'a> {
    /// The trie's arity.
    pub fn arity(&self) -> (r: usize)
        requires
            self.inv(),
        ensures
            r == self.spec_trie().spec_arity(),
    {
        self.trie.columns.len()
    }

    /// The active layer, if any.
    pub fn current_layer(&self) -> (r: Option<usize>)
        ensures
            r == self.spec_layer(),
    {
        self.current_layer
    }

    /// Descend one layer: from above the root to layer zero, or from a
    /// positioned value to its freshly narrowed child range.
    #[verifier::rlimit(100)]
    pub fn down(&mut self)
        requires
            old(self).inv(),
            match old(self).spec_layer() {
                None => true,
                Some(l) => l + 1 < old(self).spec_trie().spec_arity()
                    && old(self).scans()[l as int].current_spec() is Some,
            },
        ensures
            final(self).inv(),
            final(self).spec_trie() == old(self).spec_trie(),
            match old(self).spec_layer() {
                None => final(self).spec_layer() == Some(0usize)
                    && final(self).scans() == old(self).scans(),
                Some(l) => final(self).spec_layer() == Some((l + 1) as usize)
                    && final(self).scans()[l as int + 1].is_fresh()
                    && final(self).scans()[l as int + 1].data()
                        == old(self).spec_trie().layer(l as int + 1).subrange(
                            old(self).spec_trie().offsets(l as int)[
                                scan_position(old(self).scans()[l as int])] as int,
                            old(self).spec_trie().offsets(l as int)[
                                scan_position(old(self).scans()[l as int]) + 1] as int,
                        )
                    && final(self).scans()[l as int + 1].spec_lower()
                        == old(self).spec_trie().offsets(l as int)[
                            scan_position(old(self).scans()[l as int])]
                    && (forall|x: int| 0 <= x < old(self).scans().len() && x != l + 1
                        ==> final(self).scans()[x] == old(self).scans()[x]),
            },
    {
        match self.current_layer {
            None => {
                self.current_layer = Some(0);
            },
            Some(l) => {
                let ar = self.trie.columns.len();
                proof {
                    assert(l + 1 < ar);
                }
                let p = match self.column_scans[l].pos() {
                    Some(p) => p,
                    None => {
                        proof {
                            assert(false);
                        }
                        0
                    },
                };
                proof {
                    self.column_scans@[l as int].lemma_front_bounds();
                    self.column_scans@[l as int].lemma_range_in_column();
                    assert(p < self.trie.layer(l as int).len());
                    assert(p + 1 < self.trie.offsets(l as int).len());
                }
                let (clo, chi) = self.trie.intervals[l].bounds(p);
                proof {
                    let last = self.trie.layer(l as int).len() as int;
                    assert(self.trie.offsets(l as int)[last]
                        == self.trie.layer(l as int + 1).len());
                    if p + 1 < last {
                        assert(self.trie.offsets(l as int)[p as int + 1]
                            < self.trie.offsets(l as int)[last]);
                    }
                    assert(chi <= self.trie.layer(l as int + 1).len());
                }
                let ghost pre_scans = self.column_scans@;
                self.column_scans[l + 1].narrow(clo, chi);
                proof {
                    assert(self.column_scans@ =~= pre_scans.update(
                        l as int + 1, self.column_scans@[l as int + 1]));
                    let child = self.column_scans@[l as int + 1];
                    assert(child.data() =~= self.trie.layer(l as int + 1).subrange(
                        clo as int, chi as int));
                    lemma_child_range_sorted(*self.trie, l as int, p as int,
                        child.data());
                }
                self.current_layer = Some(l + 1);
            },
        }
    }

    /// Leave the current layer, resetting the abandoned scan; no other
    /// layer's scan moves.
    pub fn up(&mut self)
        requires
            old(self).inv(),
            old(self).spec_layer() is Some,
        ensures
            final(self).inv(),
            final(self).spec_trie() == old(self).spec_trie(),
            final(self).spec_layer() == (if old(self).spec_layer()->0 == 0 {
                None::<usize>
            } else {
                Some((old(self).spec_layer()->0 - 1) as usize)
            }),
            ({
                let l = old(self).spec_layer()->0 as int;
                &&& forall|x: int| 0 <= x < old(self).scans().len() && x != l
                    ==> final(self).scans()[x] == old(self).scans()[x]
                &&& final(self).scans()[l].data() == old(self).scans()[l].data()
                &&& final(self).scans()[l].spec_lower()
                    == old(self).scans()[l].spec_lower()
                &&& final(self).scans()[l].is_fresh()
            }),
    {
        let l = match self.current_layer {
            Some(l) => l,
            None => {
                proof {
                    assert(false);
                }
                0
            },
        };
        let ghost pre_scans = self.column_scans@;
        self.column_scans[l].reset();
        proof {
            assert(self.column_scans@ =~= pre_scans.update(
                l as int, self.column_scans@[l as int]));
        }
        if l == 0 {
            self.current_layer = None;
        } else {
            self.current_layer = Some(l - 1);
        }
    }

    /// Advance the active layer's scan to its next value.
    pub fn next(&mut self) -> (r: Option<u64>)
        requires
            old(self).inv(),
            old(self).spec_layer() is Some,
        ensures
            final(self).inv(),
            final(self).spec_trie() == old(self).spec_trie(),
            final(self).spec_layer() == old(self).spec_layer(),
            ({
                let l = old(self).spec_layer()->0 as int;
                let sc = old(self).scans()[l];
                &&& forall|x: int| 0 <= x < old(self).scans().len() && x != l
                    ==> final(self).scans()[x] == old(self).scans()[x]
                &&& final(self).scans()[l].data() == sc.data()
                &&& final(self).scans()[l].spec_lower() == sc.spec_lower()
                &&& final(self).scans()[l].spec_pos() == (if sc.is_exhausted() {
                    sc.spec_pos()
                } else {
                    sc.spec_pos() + 1
                })
                &&& r == final(self).scans()[l].current_spec()
            }),
    {
        let l = match self.current_layer {
            Some(l) => l,
            None => {
                proof {
                    assert(false);
                }
                0
            },
        };
        let ghost pre = self.column_scans@;
        let r = self.column_scans[l].next();
        proof {
            assert(self.column_scans@ =~= pre.update(l as int, self.column_scans@[l as int]));
        }
        r
    }

    /// Seek the active layer's scan to the least remaining value at
    /// least `value`.
    pub fn seek(&mut self, value: u64) -> (r: Option<u64>)
        requires
            old(self).inv(),
            old(self).spec_layer() is Some,
        ensures
            final(self).inv(),
            final(self).spec_trie() == old(self).spec_trie(),
            final(self).spec_layer() == old(self).spec_layer(),
            ({
                let l = old(self).spec_layer()->0 as int;
                let sc = old(self).scans()[l];
                &&& forall|x: int| 0 <= x < old(self).scans().len() && x != l
                    ==> final(self).scans()[x] == old(self).scans()[x]
                &&& final(self).scans()[l].data() == sc.data()
                &&& final(self).scans()[l].spec_lower() == sc.spec_lower()
                &&& final(self).scans()[l].spec_pos()
                    == crate::column_scan::lower_bound_from(
                        sc.data(), sc.front(), value) + 1
                &&& r == final(self).scans()[l].current_spec()
                &&& match r {
                    Some(v) => v >= value,
                    None => final(self).scans()[l].is_exhausted(),
                }
            }),
    {
        let l = match self.current_layer {
            Some(l) => l,
            None => {
                proof {
                    assert(false);
                }
                0
            },
        };
        proof {
            if l > 0 {
                assert(seq_sorted_strict(self.column_scans@[l as int].data()));
            }
            crate::lemma_sorted_strict_implies_sorted(self.column_scans@[l as int].data());
        }
        let ghost pre = self.column_scans@;
        let r = self.column_scans[l].seek(value);
        proof {
            assert(self.column_scans@ =~= pre.update(l as int, self.column_scans@[l as int]));
        }
        r
    }

    /// The value the active layer's scan stands on.
    pub fn current(&self) -> (r: Option<u64>)
        requires
            self.inv(),
            self.spec_layer() is Some,
        ensures
            r == self.scans()[self.spec_layer()->0 as int].current_spec(),
    {
        let l = match self.current_layer {
            Some(l) => l,
            None => {
                proof {
                    assert(false);
                }
                0
            },
        };
        self.column_scans[l].current()
    }
}

/// A prune wrapper around a trie scan over a stored trie.  Pruning
/// hides prefixes with an empty completion; a stored trie has none
/// (every interval is non-empty), so every operation forwards to the
/// inner scan unchanged and the wrapper enumerates exactly the same
/// tuples.
pub struct TrieScanPrune<'a> {
    inner: TrieScanGeneric<'a>,
}

impl<'a> TrieScanPrune<'a> {
    /// The wrapped scan.
    pub closed spec fn spec_inner(&self) -> TrieScanGeneric<'a> {
        self.inner
    }

    /// The wrapper is as well formed as its inner scan.
    pub open spec fn inv(&self) -> bool {
        self.spec_inner().inv()
    }

    /// Wrap a trie scan.
    pub fn new(inner: TrieScanGeneric<'a>) -> (r: TrieScanPrune<'a>)
        ensures
            r.spec_inner() == inner,
    {
        TrieScanPrune { inner }
    }

    /// Descend one layer, exactly as the inner scan does.
    pub fn down(&mut self)
        requires
            old(self).inv(),
            match old(self).spec_inner().spec_layer() {
                None => true,
                Some(l) => l + 1 < old(self).spec_inner().spec_trie().spec_arity()
                    && old(self).spec_inner().scans()[l as int].current_spec() is Some,
            },
        ensures
            final(self).inv(),
            final(self).spec_inner().spec_trie() == old(self).spec_inner().spec_trie(),
            match old(self).spec_inner().spec_layer() {
                None => final(self).spec_inner().spec_layer() == Some(0usize)
                    && final(self).spec_inner().scans() == old(self).spec_inner().scans(),
                Some(l) => final(self).spec_inner().spec_layer() == Some((l + 1) as usize)
                    && final(self).spec_inner().scans()[l as int + 1].is_fresh()
                    && final(self).spec_inner().scans()[l as int + 1].data()
                        == old(self).spec_inner().spec_trie().layer(l as int + 1).subrange(
                            old(self).spec_inner().spec_trie().offsets(l as int)[
                                scan_position(old(self).spec_inner().scans()[l as int])]
                                as int,
                            old(self).spec_inner().spec_trie().offsets(l as int)[
                                scan_position(old(self).spec_inner().scans()[l as int])
                                + 1] as int,
                        )
                    && final(self).spec_inner().scans()[l as int + 1].spec_lower()
                        == old(self).spec_inner().spec_trie().offsets(l as int)[
                            scan_position(old(self).spec_inner().scans()[l as int])]
                    && (forall|x: int| 0 <= x < old(self).spec_inner().scans().len()
                        && x != l + 1
                        ==> final(self).spec_inner().scans()[x]
                            == old(self).spec_inner().scans()[x]),
            },
    {
        self.inner.down();
    }

    /// Leave the current layer, exactly as the inner scan does; no
    /// other layer's scan moves.
    pub fn up(&mut self)
        requires
            old(self).inv(),
            old(self).spec_inner().spec_layer() is Some,
        ensures
            final(self).inv(),
            final(self).spec_inner().spec_trie() == old(self).spec_inner().spec_trie(),
            final(self).spec_inner().spec_layer()
                == (if old(self).spec_inner().spec_layer()->0 == 0 {
                    None::<usize>
                } else {
                    Some((old(self).spec_inner().spec_layer()->0 - 1) as usize)
                }),
            ({
                let l = old(self).spec_inner().spec_layer()->0 as int;
                &&& forall|x: int| 0 <= x < old(self).spec_inner().scans().len() && x != l
                    ==> final(self).spec_inner().scans()[x]
                        == old(self).spec_inner().scans()[x]
                &&& final(self).spec_inner().scans()[l].data()
                    == old(self).spec_inner().scans()[l].data()
                &&& final(self).spec_inner().scans()[l].spec_lower()
                    == old(self).spec_inner().scans()[l].spec_lower()
                &&& final(self).spec_inner().scans()[l].is_fresh()
            }),
    {
        self.inner.up();
    }

    /// Advance the active layer: one step of the inner scan, to the
    /// very position and value the inner scan yields (a stored trie
    /// gives pruning nothing to skip).
    pub fn next(&mut self) -> (r: Option<u64>)
        requires
            old(self).inv(),
            old(self).spec_inner().spec_layer() is Some,
        ensures
            final(self).inv(),
            final(self).spec_inner().spec_trie() == old(self).spec_inner().spec_trie(),
            final(self).spec_inner().spec_layer() == old(self).spec_inner().spec_layer(),
            ({
                let l = old(self).spec_inner().spec_layer()->0 as int;
                let sc = old(self).spec_inner().scans()[l];
                &&& forall|x: int| 0 <= x < old(self).spec_inner().scans().len() && x != l
                    ==> final(self).spec_inner().scans()[x]
                        == old(self).spec_inner().scans()[x]
                &&& final(self).spec_inner().scans()[l].data() == sc.data()
                &&& final(self).spec_inner().scans()[l].spec_lower() == sc.spec_lower()
                &&& final(self).spec_inner().scans()[l].spec_pos()
                    == (if sc.is_exhausted() {
                        sc.spec_pos()
                    } else {
                        sc.spec_pos() + 1
                    })
                &&& r == final(self).spec_inner().scans()[l].current_spec()
            }),
    {
        self.inner.next()
    }

    /// Seek on the active layer: the inner scan lands on the least
    /// remaining value at or above `value`, and so does the wrapper.
    pub fn seek(&mut self, value: u64) -> (r: Option<u64>)
        requires
            old(self).inv(),
            old(self).spec_inner().spec_layer() is Some,
        ensures
            final(self).inv(),
            final(self).spec_inner().spec_trie() == old(self).spec_inner().spec_trie(),
            final(self).spec_inner().spec_layer() == old(self).spec_inner().spec_layer(),
            ({
                let l = old(self).spec_inner().spec_layer()->0 as int;
                let sc = old(self).spec_inner().scans()[l];
                &&& forall|x: int| 0 <= x < old(self).spec_inner().scans().len() && x != l
                    ==> final(self).spec_inner().scans()[x]
                        == old(self).spec_inner().scans()[x]
                &&& final(self).spec_inner().scans()[l].data() == sc.data()
                &&& final(self).spec_inner().scans()[l].spec_lower() == sc.spec_lower()
                &&& final(self).spec_inner().scans()[l].spec_pos()
                    == crate::column_scan::lower_bound_from(
                        sc.data(), sc.front(), value) + 1
                &&& r == final(self).spec_inner().scans()[l].current_spec()
                &&& match r {
                    Some(v) => v >= value,
                    None => final(self).spec_inner().scans()[l].is_exhausted(),
                }
            }),
    {
        self.inner.seek(value)
    }

    /// The value the active layer stands on.
    pub fn current(&self) -> (r: Option<u64>)
        requires
            self.inv(),
            self.spec_inner().spec_layer() is Some,
        ensures
            r == self.spec_inner().scans()[
                self.spec_inner().spec_layer()->0 as int].current_spec(),
    {
        self.inner.current()
    }
}

/// The column-scan facet of a prune trie scan at one layer: `next` and
/// `seek` drive the underlying trie scan's active layer, and `current`
/// answers only while the scan stands on this layer.
pub struct ColumnScanPrune<'a> {
    state: TrieScanPrune<'a>,
    column_scan_index: usize,
}

impl<'a> ColumnScanPrune<'a> {
    /// The shared trie-scan state.
    pub closed spec fn spec_state(&self) -> TrieScanPrune<'a> {
        self.state
    }

    /// The layer this facet drives.
    pub closed spec fn spec_index(&self) -> usize {
        self.column_scan_index
    }

    /// Take ownership of the trie-scan state for one layer.
    pub fn new(state: TrieScanPrune<'a>, column_scan_index: usize)
        -> (r: ColumnScanPrune<'a>)
        ensures
            r.spec_state() == state,
            r.spec_index() == column_scan_index,
    {
        ColumnScanPrune { state, column_scan_index }
    }

    /// Advance this layer of the trie scan: one step of the layer's
    /// scan, to the position and value the wrapped scan yields.
    pub fn next(&mut self) -> (r: Option<u64>)
        requires
            old(self).spec_state().inv(),
            old(self).spec_state().spec_inner().spec_layer()
                == Some(old(self).spec_index()),
        ensures
            final(self).spec_state().inv(),
            final(self).spec_index() == old(self).spec_index(),
            final(self).spec_state().spec_inner().spec_layer()
                == Some(old(self).spec_index()),
            ({
                let l = old(self).spec_index() as int;
                let sc = old(self).spec_state().spec_inner().scans()[l];
                &&& final(self).spec_state().spec_inner().scans()[l].data() == sc.data()
                &&& final(self).spec_state().spec_inner().scans()[l].spec_pos()
                    == (if sc.is_exhausted() {
                        sc.spec_pos()
                    } else {
                        sc.spec_pos() + 1
                    })
                &&& r == final(self).spec_state().spec_inner().scans()[l].current_spec()
            }),
    {
        self.state.next()
    }

    /// Seek this layer of the trie scan: the layer's scan lands on the
    /// least remaining value at or above `minimum_value`.
    pub fn seek(&mut self, minimum_value: u64) -> (r: Option<u64>)
        requires
            old(self).spec_state().inv(),
            old(self).spec_state().spec_inner().spec_layer()
                == Some(old(self).spec_index()),
        ensures
            final(self).spec_state().inv(),
            final(self).spec_index() == old(self).spec_index(),
            final(self).spec_state().spec_inner().spec_layer()
                == Some(old(self).spec_index()),
            ({
                let l = old(self).spec_index() as int;
                let sc = old(self).spec_state().spec_inner().scans()[l];
                &&& final(self).spec_state().spec_inner().scans()[l].data() == sc.data()
                &&& final(self).spec_state().spec_inner().scans()[l].spec_pos()
                    == crate::column_scan::lower_bound_from(
                        sc.data(), sc.front(), minimum_value) + 1
                &&& r == final(self).spec_state().spec_inner().scans()[l].current_spec()
                &&& match r {
                    Some(v) => v >= minimum_value,
                    None => final(self).spec_state().spec_inner().scans()[l]
                        .is_exhausted(),
                }
            }),
    {
        self.state.seek(minimum_value)
    }

    /// The current value, while the trie scan stands on this layer.
    pub fn current(&self) -> (r: Option<u64>)
        requires
            self.spec_state().inv(),
        ensures
            self.spec_state().spec_inner().spec_layer() == Some(self.spec_index())
                ==> r == self.spec_state().spec_inner().scans()[
                    self.spec_index() as int].current_spec(),
            self.spec_state().spec_inner().spec_layer() != Some(self.spec_index())
                ==> r is None,
    {
        match self.state.inner_layer() {
            Some(l) => {
                if l == self.column_scan_index {
                    self.state.current()
                } else {
                    None
                }
            },
            None => None,
        }
    }
}

impl<'a> TrieScanPrune<'a> {
    /// The inner scan's active layer.
    pub fn inner_layer(&self) -> (r: Option<usize>)
        ensures
            r == self.spec_inner().spec_layer(),
    {
        self.inner.current_layer()
    }

    /// The trie's arity.
    pub fn arity(&self) -> (r: usize)
        requires
            self.inv(),
        ensures
            r == self.spec_inner().spec_trie().spec_arity(),
    {
        self.inner.arity()
    }

}

} // verus!