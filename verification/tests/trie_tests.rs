//! Tries: building from sorted tuples, depth-first enumeration, the
//! trie-scan protocol, and the prune wrapper.

use nemo::trie::Trie;
use nemo::trie_scan::{ColumnScanPrune, TrieScanGeneric, TrieScanPrune};

fn sample_rows() -> Vec<Vec<u64>> {
    vec![
        vec![1, 2],
        vec![1, 3],
        vec![2, 4],
        vec![5, 1],
        vec![5, 9],
    ]
}

#[test]
fn build_and_materialize_round_trip() {
    let rows = sample_rows();
    let trie = Trie::from_rows(&rows, 2);
    assert_eq!(trie.arity(), 2);
    assert_eq!(trie.materialize(), rows);
}

#[test]
fn materialize_is_lexicographically_sorted() {
    let rows = vec![
        vec![0, 0, 1],
        vec![0, 1, 0],
        vec![0, 1, 5],
        vec![3, 0, 0],
    ];
    let trie = Trie::from_rows(&rows, 3);
    let out = trie.materialize();
    assert_eq!(out, rows);
    for w in out.windows(2) {
        assert!(w[0] < w[1], "tuples must be strictly ascending");
    }
}

#[test]
fn empty_trie() {
    let rows: Vec<Vec<u64>> = vec![];
    let trie = Trie::from_rows(&rows, 2);
    assert_eq!(trie.materialize(), rows);
}

/// Walk a trie with the scan protocol, collecting all tuples.
fn drain_with_scan(trie: &Trie) -> Vec<Vec<u64>> {
    let mut scan = TrieScanGeneric::new(trie);
    let arity = trie.arity();
    let mut out: Vec<Vec<u64>> = Vec::new();
    let mut stack: Vec<u64> = Vec::new();
    scan.down();
    loop {
        match scan.next() {
            Some(v) => {
                stack.push(v);
                if stack.len() == arity {
                    out.push(stack.clone());
                    stack.pop();
                } else {
                    scan.down();
                }
            }
            None => match scan.current_layer() {
                Some(0) | None => break,
                Some(_) => {
                    scan.up();
                    stack.pop();
                }
            },
        }
    }
    out
}

#[test]
fn trie_scan_walks_in_lex_order() {
    let rows = sample_rows();
    let trie = Trie::from_rows(&rows, 2);
    assert_eq!(drain_with_scan(&trie), rows);
}

#[test]
fn trie_scan_narrows_to_children() {
    let rows = sample_rows();
    let trie = Trie::from_rows(&rows, 2);
    let mut scan = TrieScanGeneric::new(&trie);
    scan.down();
    assert_eq!(scan.next(), Some(1));
    scan.down();
    assert_eq!(scan.next(), Some(2));
    assert_eq!(scan.next(), Some(3));
    assert_eq!(scan.next(), None);
    scan.up();
    assert_eq!(scan.current(), Some(1));
    assert_eq!(scan.next(), Some(2));
    scan.down();
    assert_eq!(scan.seek(3), Some(4));
    assert_eq!(scan.next(), None);
}

#[test]
fn prune_enumerates_the_same_tuples() {
    let rows = sample_rows();
    let trie = Trie::from_rows(&rows, 2);
    let mut pruned = TrieScanPrune::new(TrieScanGeneric::new(&trie));
    let arity = trie.arity();
    let mut out: Vec<Vec<u64>> = Vec::new();
    let mut stack: Vec<u64> = Vec::new();
    pruned.down();
    loop {
        match pruned.next() {
            Some(v) => {
                stack.push(v);
                if stack.len() == arity {
                    out.push(stack.clone());
                    stack.pop();
                } else {
                    pruned.down();
                }
            }
            None => match pruned.inner_layer() {
                Some(0) | None => break,
                Some(_) => {
                    pruned.up();
                    stack.pop();
                }
            },
        }
    }
    assert_eq!(out, rows, "pruning a stored trie hides nothing");
}

#[test]
fn prune_column_facet_delegates() {
    let rows = vec![vec![7], vec![9], vec![12]];
    let trie = Trie::from_rows(&rows, 1);
    let mut pruned = TrieScanPrune::new(TrieScanGeneric::new(&trie));
    pruned.down();
    let mut facet = ColumnScanPrune::new(pruned, 0);
    assert_eq!(facet.next(), Some(7));
    assert_eq!(facet.current(), Some(7));
    assert_eq!(facet.seek(8), Some(9));
    assert_eq!(facet.next(), Some(12));
    assert_eq!(facet.next(), None);
    assert_eq!(facet.current(), None);
}

#[test]
fn checked_build_confirms_contents() {
    let rows = sample_rows();
    let trie = Trie::from_rows_checked(&rows, 2).expect("the build must confirm");
    assert_eq!(trie.materialize(), rows);
}
