//! A column-oriented relational engine for Datalog-style materialization:
//! sorted column storages (dense and run-length-encoded), seek-based column
//! scans, leapfrog merge-joins over sorted columns, and tries walked in
//! lexicographic order, together with the rule model and the ingestion
//! paths that feed the column builders.

use vstd::prelude::*;

pub mod column;
pub mod column_scan;
pub mod ordered_merge_join;
pub mod columnscan_equal_column;
pub mod error;
pub mod double;
pub mod dictionary;
pub mod model;
pub mod parser;
pub mod term_map;
pub mod rdf;
pub mod ingest;
pub mod trie;
pub mod trie_scan;
pub mod strategy;

verus! {

/// The values of `s` are in ascending order (duplicates allowed).
pub open spec fn seq_sorted(s: Seq<u64>) -> bool {
    forall|i: int, j: int| 0 <= i <= j < s.len() ==> s[i] <= s[j]
}

/// The values of `s` are in strictly ascending order.
pub open spec fn seq_sorted_strict(s: Seq<u64>) -> bool {
    forall|i: int, j: int| 0 <= i < j < s.len() ==> s[i] < s[j]
}

pub proof fn lemma_sorted_strict_implies_sorted(s: Seq<u64>)
    requires
        seq_sorted_strict(s),
    ensures
        seq_sorted(s),
{
}

} // verus!
