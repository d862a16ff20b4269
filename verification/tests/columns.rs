//! Column storages and scans: round trips, seeks, and the adaptive
//! builder.

use nemo::column::{AdaptiveColumnBuilder, ColumnT, RleColumn, VectorColumn};
use nemo::column_scan::GenericColumnScan;

fn drain(col: &ColumnT) -> Vec<u64> {
    let mut scan = GenericColumnScan::new(col);
    scan.collect_remaining()
}

#[test]
fn dense_round_trip() {
    let data: Vec<u64> = vec![2, 3, 5, 7, 11, 13];
    let col = ColumnT::Vector(VectorColumn::new(data.clone()));
    assert_eq!(col.len(), 6);
    assert_eq!(col.get(0), 2);
    assert_eq!(col.get(5), 13);
    assert_eq!(drain(&col), data);
}

#[test]
fn rle_round_trip() {
    let data: Vec<u64> = vec![1, 2, 3, 10, 20, 30, 30, 30, 5];
    let rle = RleColumn::from_values(&data);
    assert_eq!(rle.len(), data.len());
    for (i, v) in data.iter().enumerate() {
        assert_eq!(rle.get(i), *v);
    }
    assert_eq!(drain(&ColumnT::Rle(RleColumn::from_values(&data))), data);
}

#[test]
fn rle_round_trip_large() {
    // three stride-one stretches, as a run-length friendly input
    let mut data: Vec<u64> = Vec::new();
    for v in 1..100_000u64 {
        data.push(v);
    }
    for v in 200_000..400_000u64 {
        data.push(v);
    }
    for v in 600_000..800_000u64 {
        data.push(v);
    }
    let rle = RleColumn::from_values(&data);
    assert_eq!(rle.num_runs(), 3);
    let col = ColumnT::Rle(rle);
    let mut scan = GenericColumnScan::new(&col);
    assert_eq!(scan.seek(650_000), Some(650_000));
    assert_eq!(drain(&col), data);
}

#[test]
fn adaptive_builder_picks_rle() {
    let mut builder = AdaptiveColumnBuilder::new();
    for v in 0..64u64 {
        builder.add(v);
    }
    let col = builder.finalize();
    assert!(matches!(col, ColumnT::Rle(_)));
    assert_eq!(col.len(), 64);
    assert_eq!(col.get(63), 63);
}

#[test]
fn adaptive_builder_picks_dense() {
    let mut builder = AdaptiveColumnBuilder::new();
    for v in [9u64, 2, 17, 4, 40, 1, 8, 30] {
        builder.add(v);
    }
    let col = builder.finalize();
    assert!(matches!(col, ColumnT::Vector(_)));
    assert_eq!(drain(&col), vec![9, 2, 17, 4, 40, 1, 8, 30]);
}

#[test]
fn builder_forget_drops_last() {
    let mut builder = AdaptiveColumnBuilder::new();
    builder.add(1);
    builder.add(2);
    builder.add(3);
    builder.forget();
    assert_eq!(builder.count(), 2);
    let col = builder.finalize();
    assert_eq!(drain(&col), vec![1, 2]);
}

#[test]
fn galloping_seek_on_dense() {
    let mut data: Vec<u64> = Vec::new();
    for v in 0..1_000_000u64 {
        data.push(v);
    }
    for v in 2_000_000..3_000_000u64 {
        data.push(v);
    }
    let col = ColumnT::Vector(VectorColumn::new(data));
    let mut scan = GenericColumnScan::new(&col);
    assert_eq!(scan.seek(2_500_000), Some(2_500_000));
    assert_eq!(scan.current(), Some(2_500_000));
    // a value in the gap lands on the first value after it
    let mut scan2 = GenericColumnScan::new(&col);
    assert_eq!(scan2.seek(1_500_000), Some(2_000_000));
}

#[test]
fn seek_contract_on_dense() {
    let col = ColumnT::Vector(VectorColumn::new(vec![2, 4, 4, 8, 16]));
    let mut scan = GenericColumnScan::new(&col);
    assert_eq!(scan.seek(3), Some(4));
    assert_eq!(scan.current(), Some(4));
    assert_eq!(scan.pos(), Some(1));
    assert_eq!(scan.seek(4), Some(4));
    assert_eq!(scan.seek(9), Some(16));
    assert_eq!(scan.seek(17), None);
    assert_eq!(scan.current(), None);
}

#[test]
fn seek_monotone_never_moves_back() {
    let col = ColumnT::Vector(VectorColumn::new(vec![1, 5, 9, 12, 30]));
    let mut scan = GenericColumnScan::new(&col);
    let mut last_pos: Option<usize> = None;
    for t in [0u64, 2, 2, 6, 11, 13] {
        scan.seek(t);
        let p = scan.pos();
        if let (Some(prev), Some(cur)) = (last_pos, p) {
            assert!(cur >= prev);
        }
        if p.is_some() {
            last_pos = p;
        }
    }
}

#[test]
fn narrow_restricts_scan() {
    let col = ColumnT::Vector(VectorColumn::new(vec![1, 3, 5, 7, 9]));
    let mut scan = GenericColumnScan::new(&col);
    scan.narrow(1, 4);
    assert_eq!(scan.next(), Some(3));
    assert_eq!(scan.next(), Some(5));
    assert_eq!(scan.next(), Some(7));
    assert_eq!(scan.next(), None);
    scan.reset();
    assert_eq!(scan.next(), Some(3));
}
