//! The equality operator scan: yields at most one value, namely the
//! reference scan's current value, and only if the value column
//! contains it.

use vstd::prelude::*;
use crate::column_scan::{GenericColumnScan, lower_bound_from, lemma_lower_bound_from};
use crate::seq_sorted;

verus! {

/// Restricts a value scan to the single value a reference scan stands
/// on.  The reference's current value is captured when the operator is
/// built.
pub struct ColumnScanEqualColumn<'a> {
    /// The value the reference scan stood on at construction.
    reference_value: Option<u64>,
    /// The sub scan, sought to the reference value on demand.
    value_scan: GenericColumnScan<'a>,
    /// Current value of this scan.
    current_value: Option<u64>,
}

impl<'a> ColumnScanEqualColumn<'a> {
    /// The captured reference value.
    pub closed spec fn spec_reference(&self) -> Option<u64> {
        self.reference_value
    }

    /// The contents of the value column (narrowed as the scan was).
    pub closed spec fn value_data(&self) -> Seq<u64> {
        self.value_scan.data()
    }

    /// The value the operator stands on, if any.
    pub closed spec fn current_spec(&self) -> Option<u64> {
        self.current_value
    }

    /// The first index of the value column the sub scan can still reach.
    pub closed spec fn value_front(&self) -> int {
        self.value_scan.front()
    }

    /// The sub scan has not been moved yet.
    pub closed spec fn value_is_fresh(&self) -> bool {
        self.value_scan.is_fresh()
    }

    /// The value column is sorted and only the reference value is ever
    /// held as current.
    pub closed spec fn wf(&self) -> bool {
        &&& self.value_scan.wf()
        &&& seq_sorted(self.value_scan.data())
        &&& match self.current_value {
            Some(cv) => self.reference_value == Some(cv),
            None => true,
        }
    }

    /// Build the operator from a positioned reference scan and a value
    /// scan over a sorted column.
    pub fn new(
        reference_scan: &GenericColumnScan<'a>,
        value_scan: GenericColumnScan<'a>,
    ) -> (r: ColumnScanEqualColumn<'a>)
        requires
            reference_scan.wf(),
            value_scan.wf(),
            seq_sorted(value_scan.data()),
        ensures
            r.wf(),
            r.current_spec() is None,
            r.spec_reference() == reference_scan.current_spec(),
            r.value_data() == value_scan.data(),
            r.value_is_fresh() == value_scan.is_fresh(),
            r.value_front() == value_scan.front(),
    {
        let reference_value = reference_scan.current();
        ColumnScanEqualColumn { reference_value, value_scan, current_value: None }
    }

    /// The value of the most recent successful `next` or `seek`.
    pub fn current(&self) -> (r: Option<u64>)
        ensures
            r == self.current_spec(),
    {
        self.current_value
    }

    /// Forget the current value; the sub scan's position is kept.
    pub fn reset(&mut self)
        requires
            old(self).wf(),
        ensures
            final(self).wf(),
            final(self).current_spec() is None,
            final(self).spec_reference() == old(self).spec_reference(),
            final(self).value_data() == old(self).value_data(),
            final(self).value_front() == old(self).value_front(),
    {
        self.current_value = None;
    }

    /// Produce the reference value if the value column still holds it;
    /// at most one value is ever produced per positioning.
    pub fn next(&mut self) -> (r: Option<u64>)
        requires
            old(self).wf(),
        ensures
            final(self).wf(),
            final(self).spec_reference() == old(self).spec_reference(),
            final(self).value_data() == old(self).value_data(),
            r == final(self).current_spec(),
            old(self).current_spec() is Some ==> r is None
                && final(self).value_front() == old(self).value_front()
                && final(self).value_is_fresh() == old(self).value_is_fresh(),
            old(self).current_spec() is None && old(self).spec_reference() is None
                ==> r is None
                    && final(self).value_front() == old(self).value_front()
                    && final(self).value_is_fresh() == old(self).value_is_fresh(),
            forall|rv: u64|
                old(self).current_spec() is None && old(self).spec_reference() == Some(rv)
                ==> r == spec_equal_result(old(self).value_data(), old(self).value_front(), rv),
            forall|rv: u64|
                old(self).current_spec() is None && old(self).spec_reference() == Some(rv)
                    && old(self).value_is_fresh()
                ==> r == (if old(self).value_data().contains(rv) {
                    Some(rv)
                } else {
                    None::<u64>
                }),
    {
        if self.current_value.is_some() {
            // The next value would have to be larger than the reference,
            // so there is none.
            self.current_value = None;
            return None;
        }
        let rv = match self.reference_value {
            Some(x) => x,
            None => {
                return None;
            },
        };
        let ghost data = self.value_scan.data();
        let ghost front = self.value_scan.front();
        proof {
            self.value_scan.lemma_front_bounds();
        }
        let next_value_opt = self.value_scan.seek(rv);
        match next_value_opt {
            Some(next_value) => {
                if next_value == rv {
                    self.current_value = Some(rv);
                } else {
                    self.current_value = None;
                }
            },
            None => {
                self.current_value = None;
            },
        }
        proof {
            lemma_lower_bound_from(data, front, rv);
            if self.value_scan.is_fresh() {
            }
            if front == 0 && seq_sorted(data) {
                if data.contains(rv) {
                    let j = choose|j: int| 0 <= j < data.len() && data[j] == rv;
                    let lbf = lower_bound_from(data, 0, rv);
                    assert(lbf <= j);
                    assert(data[lbf] <= data[j]);
                }
            }
        }
        self.current_value
    }

    /// Like `next`, unless the target is past the reference value, in
    /// which case nothing can be produced and the value scan is not
    /// touched.
    pub fn seek(&mut self, value: u64) -> (r: Option<u64>)
        requires
            old(self).wf(),
        ensures
            final(self).wf(),
            final(self).spec_reference() == old(self).spec_reference(),
            final(self).value_data() == old(self).value_data(),
            old(self).spec_reference() is None
                ==> r is None && *final(self) == *old(self),
            forall|rv: u64| old(self).spec_reference() == Some(rv) && value > rv
                ==> r is None && final(self).current_spec() is None
                    && final(self).value_front() == old(self).value_front()
                    && final(self).value_is_fresh() == old(self).value_is_fresh(),
            forall|rv: u64| old(self).spec_reference() == Some(rv) && value <= rv
                ==> r == final(self).current_spec()
                    && (old(self).current_spec() is Some ==> r is None
                        && final(self).value_front() == old(self).value_front()
                        && final(self).value_is_fresh() == old(self).value_is_fresh())
                    && (old(self).current_spec() is None
                        ==> r == spec_equal_result(
                            old(self).value_data(), old(self).value_front(), rv)),
    {
        let rv = match self.reference_value {
            Some(x) => x,
            None => {
                return None;
            },
        };
        if value > rv {
            self.current_value = None;
            None
        } else {
            self.next()
        }
    }
}

/// What seeking the value column (from `front`) for the reference value
/// `rv` yields: `rv` itself when the remaining column holds it, nothing
/// otherwise.
pub open spec fn spec_equal_result(data: Seq<u64>, front: int, rv: u64) -> Option<u64> {
    let lbf = lower_bound_from(data, front, rv);
    if lbf < data.len() && data[lbf] == rv {
        Some(rv)
    } else {
        None
    }
}

} // verus!
