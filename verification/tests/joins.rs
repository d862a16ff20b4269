//! The merge-join and the equality scan over dense columns.

use nemo::column::{ColumnT, VectorColumn};
use nemo::column_scan::GenericColumnScan;
use nemo::columnscan_equal_column::ColumnScanEqualColumn;
use nemo::ordered_merge_join::OrderedMergeJoin;

fn dense(data: Vec<u64>) -> ColumnT {
    ColumnT::Vector(VectorColumn::new(data))
}

#[test]
fn test_u64_simple_join() {
    let data1: Vec<u64> = vec![1, 3, 5, 7, 9];
    let vc1 = dense(data1);
    let gcs1 = GenericColumnScan::new(&vc1);
    let data2: Vec<u64> = vec![1, 5, 6, 7, 9, 10];
    let vc2 = dense(data2);
    let gcs2 = GenericColumnScan::new(&vc2);
    let data3: Vec<u64> = vec![1, 2, 3, 4, 5, 6, 7, 8, 9];
    let vc3 = dense(data3);
    let gcs3 = GenericColumnScan::new(&vc3);

    let mut omj = OrderedMergeJoin::new(vec![gcs1, gcs2, gcs3]);

    assert_eq!(omj.next(), Some(1));
    assert_eq!(omj.current(), Some(1));
    assert_eq!(omj.next(), Some(5));
    assert_eq!(omj.current(), Some(5));
    assert_eq!(omj.next(), Some(7));
    assert_eq!(omj.current(), Some(7));
    assert_eq!(omj.next(), Some(9));
    assert_eq!(omj.current(), Some(9));
    assert_eq!(omj.next(), None);
    assert_eq!(omj.current(), None);
    assert_eq!(omj.next(), None);

    let gcs1 = GenericColumnScan::new(&vc1);
    let gcs2 = GenericColumnScan::new(&vc2);
    let gcs3 = GenericColumnScan::new(&vc3);
    let mut omj = OrderedMergeJoin::new(vec![gcs1, gcs2, gcs3]);

    assert_eq!(omj.seek(5), Some(5));
    assert_eq!(omj.current(), Some(5));
    assert_eq!(omj.seek(7), Some(7));
    assert_eq!(omj.current(), Some(7));
    assert_eq!(omj.seek(8), Some(9));
    assert_eq!(omj.current(), Some(9));
    assert_eq!(omj.seek(10), None);
    assert_eq!(omj.current(), None);
}

#[test]
fn join_drain_is_intersection() {
    let a = dense(vec![1, 3, 5, 7, 9]);
    let b = dense(vec![1, 5, 6, 7, 9, 10]);
    let c = dense(vec![1, 2, 3, 4, 5, 6, 7, 8, 9]);
    let mut omj = OrderedMergeJoin::new(vec![
        GenericColumnScan::new(&a),
        GenericColumnScan::new(&b),
        GenericColumnScan::new(&c),
    ]);
    assert_eq!(omj.drain(), vec![1, 5, 7, 9]);
}

#[test]
fn join_seek_on_fresh() {
    let a = dense(vec![1, 3, 5, 7, 9]);
    let b = dense(vec![1, 5, 6, 7, 9, 10]);
    let c = dense(vec![1, 2, 3, 4, 5, 6, 7, 8, 9]);
    let mut omj = OrderedMergeJoin::new(vec![
        GenericColumnScan::new(&a),
        GenericColumnScan::new(&b),
        GenericColumnScan::new(&c),
    ]);
    assert_eq!(omj.seek(8), Some(9));
    assert_eq!(omj.current(), Some(9));
    assert_eq!(omj.seek(10), None);
}

#[test]
fn join_reset_restarts() {
    let a = dense(vec![2, 4]);
    let b = dense(vec![2, 4, 6]);
    let mut omj = OrderedMergeJoin::new(vec![
        GenericColumnScan::new(&a),
        GenericColumnScan::new(&b),
    ]);
    assert_eq!(omj.next(), Some(2));
    omj.reset();
    assert_eq!(omj.next(), Some(2));
    assert_eq!(omj.next(), Some(4));
    assert_eq!(omj.next(), None);
}

#[test]
fn test_u64() {
    let ref_col = dense(vec![0u64, 4, 7]);
    let val_col = dense(vec![1u64, 4, 8]);

    let mut ref_iter = GenericColumnScan::new(&ref_col);
    let val_iter = GenericColumnScan::new(&val_col);

    ref_iter.seek(4);

    let mut equal_scan = ColumnScanEqualColumn::new(&ref_iter, val_iter);
    assert_eq!(equal_scan.current(), None);
    assert_eq!(equal_scan.next(), Some(4));
    assert_eq!(equal_scan.current(), Some(4));
    assert_eq!(equal_scan.next(), None);
    assert_eq!(equal_scan.current(), None);

    let mut ref_iter = GenericColumnScan::new(&ref_col);
    let val_iter = GenericColumnScan::new(&val_col);

    ref_iter.seek(7);

    let mut equal_scan = ColumnScanEqualColumn::new(&ref_iter, val_iter);
    assert_eq!(equal_scan.current(), None);
    assert_eq!(equal_scan.next(), None);
    assert_eq!(equal_scan.current(), None);
}

#[test]
fn equal_scan_seek_past_reference() {
    let ref_col = dense(vec![0u64, 4, 7]);
    let val_col = dense(vec![1u64, 4, 8]);
    let mut ref_iter = GenericColumnScan::new(&ref_col);
    ref_iter.seek(4);
    let val_iter = GenericColumnScan::new(&val_col);
    let mut equal_scan = ColumnScanEqualColumn::new(&ref_iter, val_iter);
    assert_eq!(equal_scan.seek(5), None);
    assert_eq!(equal_scan.current(), None);

    let mut ref_iter = GenericColumnScan::new(&ref_col);
    ref_iter.seek(4);
    let val_iter = GenericColumnScan::new(&val_col);
    let mut equal_scan = ColumnScanEqualColumn::new(&ref_iter, val_iter);
    assert_eq!(equal_scan.seek(3), Some(4));
    assert_eq!(equal_scan.current(), Some(4));
}
