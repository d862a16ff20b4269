//! CSV import: typed cells, row-level rollback, and the csv reader.

use nemo::dictionary::Dictionary;
use nemo::error::Error;
use nemo::ingest::{read, read_csv, DataTypeName, RawCell, VecT};

fn text(s: &str) -> RawCell {
    RawCell::Text(s.to_owned())
}

fn lens(cols: &[VecT]) -> Vec<usize> {
    cols.iter().map(|c| c.len()).collect()
}

#[test]
fn rollback_leaves_no_partial_cells() {
    // the third column of the second row fails to parse
    let datatypes = vec![
        Some(DataTypeName::U64),
        None,
        Some(DataTypeName::U64),
        Some(DataTypeName::U64),
    ];
    let rows = vec![
        vec![text("1"), text("alpha"), text("10"), text("100")],
        vec![text("2"), text("beta"), text("oops"), text("200")],
        vec![text("3"), text("gamma"), text("30"), text("300")],
    ];
    let mut dict = Dictionary::new();
    let cols = read(&datatypes, &rows, &mut dict).expect("read returns the columns");
    assert_eq!(lens(&cols), vec![2, 2, 2, 2]);
    match (&cols[0], &cols[2], &cols[3]) {
        (VecT::U64(a), VecT::U64(c), VecT::U64(d)) => {
            assert_eq!(a, &vec![1, 3]);
            assert_eq!(c, &vec![10, 30]);
            assert_eq!(d, &vec![100, 300]);
        },
        _ => panic!("expected integer columns"),
    }
}

#[test]
fn ragged_rows_are_skipped_whole() {
    let datatypes = vec![Some(DataTypeName::U64), Some(DataTypeName::U64)];
    let rows = vec![
        vec![text("1"), text("2")],
        vec![text("3")],
        vec![text("4"), text("5"), text("6")],
        vec![text("7"), text("8")],
    ];
    let mut dict = Dictionary::new();
    let cols = read(&datatypes, &rows, &mut dict).expect("read returns the columns");
    assert_eq!(lens(&cols), vec![2, 2]);
}

#[test]
fn dictionary_columns_intern_text() {
    let datatypes = vec![None, None];
    let rows = vec![
        vec![text("x"), text("y")],
        vec![text("x"), text("z")],
    ];
    let mut dict = Dictionary::new();
    let cols = read(&datatypes, &rows, &mut dict).expect("read returns the columns");
    match (&cols[0], &cols[1]) {
        (VecT::U64(a), VecT::U64(b)) => {
            assert_eq!(a[0], a[1], "equal text gets one handle");
            assert_ne!(b[0], b[1]);
            assert_eq!(dict.entry(a[0] as usize).as_deref(), Some("x"));
            assert_eq!(dict.entry(b[1] as usize).as_deref(), Some("z"));
        },
        _ => panic!("expected handle columns"),
    }
}

#[test]
fn float_cells_arrive_as_bits() {
    let datatypes = vec![Some(DataTypeName::Float), Some(DataTypeName::Double)];
    let rows = vec![
        vec![
            RawCell::FloatBits(Some(1.5f32.to_bits())),
            RawCell::DoubleBits(Some(2.25f64.to_bits())),
        ],
        vec![
            RawCell::FloatBits(Some(f32::NAN.to_bits())),
            RawCell::DoubleBits(Some(0.0f64.to_bits())),
        ],
    ];
    let mut dict = Dictionary::new();
    let cols = read(&datatypes, &rows, &mut dict).expect("read returns the columns");
    // the NaN row is rolled back whole
    assert_eq!(lens(&cols), vec![1, 1]);
    match (&cols[0], &cols[1]) {
        (VecT::Float(f), VecT::Double(d)) => {
            assert_eq!(f32::from_bits(f[0]), 1.5);
            assert_eq!(f64::from_bits(d[0]), 2.25);
        },
        _ => panic!("expected float columns"),
    }
}

#[test]
fn parse_errors_by_kind() {
    assert_eq!(
        DataTypeName::U64.parse(&text("abc")),
        Err(Error::ParseInt)
    );
    assert_eq!(
        DataTypeName::Float.parse(&RawCell::FloatBits(None)),
        Err(Error::ParseFloat)
    );
    assert_eq!(
        DataTypeName::Float.parse(&RawCell::FloatBits(Some(f32::NAN.to_bits()))),
        Err(Error::FloatIsNaN)
    );
    assert_eq!(
        DataTypeName::Double.parse(&RawCell::DoubleBits(Some(f64::NAN.to_bits()))),
        Err(Error::FloatIsNaN)
    );
}

#[test]
fn parse_u64_bounds() {
    assert_eq!(nemo::ingest::parse_u64("0"), Ok(0));
    assert_eq!(nemo::ingest::parse_u64("+42"), Ok(42));
    assert_eq!(
        nemo::ingest::parse_u64("18446744073709551615"),
        Ok(u64::MAX)
    );
    assert_eq!(
        nemo::ingest::parse_u64("18446744073709551616"),
        Err(Error::ParseInt)
    );
    assert_eq!(nemo::ingest::parse_u64(""), Err(Error::ParseInt));
    assert_eq!(nemo::ingest::parse_u64("-1"), Err(Error::ParseInt));
}

#[test]
fn csv_reader_with_faulty_rows() {
    let data = b"10;20;alpha\noops;12;beta\n30;40;gamma\n";
    let datatypes = vec![Some(DataTypeName::U64), Some(DataTypeName::U64), None];
    let mut dict = Dictionary::new();
    let cols = read_csv(data, b';', false, &datatypes, &mut dict)
        .expect("read returns the columns");
    assert_eq!(lens(&cols), vec![2, 2, 2]);
    match &cols[0] {
        VecT::U64(a) => assert_eq!(a, &vec![10, 30]),
        _ => panic!("expected integer column"),
    }
}

#[test]
fn double_rejects_nan() {
    let ok = nemo::double::Double::new(1.25f64.to_bits()).expect("not a NaN");
    assert_eq!(f64::from_bits(ok.bits()), 1.25);
    assert_eq!(
        nemo::double::Double::new(f64::NAN.to_bits()),
        Err(Error::FloatIsNaN)
    );
}
