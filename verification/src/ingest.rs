//! CSV import: records come from the csv crate behind a trusted
//! wrapper; parsing the cells of a row into typed columns, with
//! cell-by-cell rollback when a later cell of the row fails, is
//! verified here.

use vstd::prelude::*;
use crate::dictionary::Dictionary;
use crate::error::Error;

verus! {

// ------------------------------------------------------------------
// Scalar cell types and their lexical forms
// ------------------------------------------------------------------

/// The declared type of a CSV column.
#[derive(Debug, Clone, Copy, PartialEq, Eq)]
pub enum DataTypeName {
    /// 64-bit unsigned integers.
    U64,
    /// Single-precision floats, carried as their bit patterns.
    Float,
    /// Double-precision floats, carried as their bit patterns.
    Double,
}

/// A parsed cell value; float values are carried as bit patterns.
#[derive(Debug, Clone, Copy, PartialEq, Eq)]
pub enum DataValueT {
    /// An unsigned integer value.
    U64(u64),
    /// A single-precision value, as bits.
    Float(u32),
    /// A double-precision value, as bits.
    Double(u64),
}

/// A typed column under construction; float columns hold bit patterns.
#[derive(Debug, Clone, PartialEq, Eq)]
pub enum VecT {
    /// A column of unsigned integers.
    U64(Vec<u64>),
    /// A column of single-precision bit patterns.
    Float(Vec<u32>),
    /// A column of double-precision bit patterns.
    Double(Vec<u64>),
}

/// The value a cell carries, widened to 64 bits.
pub open spec fn spec_value_bits(v: DataValueT) -> u64 {
    match v {
        DataValueT::U64(x) => x,
        DataValueT::Float(b) => b as u64,
        DataValueT::Double(b) => b,
    }
}

impl View for VecT {
    type V = Seq<u64>;

    closed spec fn view(&self) -> Seq<u64> {
        match self {
            VecT::U64(v) => v@,
            VecT::Float(v) => Seq::new(v@.len(), |i: int| v@[i] as u64),
            VecT::Double(v) => v@,
        }
    }
}

/// The value belongs in the column.
pub open spec fn value_fits(col: VecT, v: DataValueT) -> bool {
    match (col, v) {
        (VecT::U64(_), DataValueT::U64(_)) => true,
        (VecT::Float(_), DataValueT::Float(_)) => true,
        (VecT::Double(_), DataValueT::Double(_)) => true,
        _ => false,
    }
}

impl VecT {
    /// The number of values in the column.
    pub fn len(&self) -> (r: usize)
        ensures
            r == self@.len(),
    {
        match self {
            VecT::U64(v) => v.len(),
            VecT::Float(v) => v.len(),
            VecT::Double(v) => v.len(),
        }
    }

    /// Append a value of the column's own kind.
    pub fn push(&mut self, value: &DataValueT)
        requires
            value_fits(*old(self), *value),
        ensures
            final(self)@ == old(self)@.push(spec_value_bits(*value)),
            forall|v: DataValueT| value_fits(*old(self), v) == value_fits(*final(self), v),
            *final(self) is U64 <==> *old(self) is U64,
            *final(self) is Float <==> *old(self) is Float,
            *final(self) is Double <==> *old(self) is Double,
    {
        match (self, value) {
            (VecT::U64(v), DataValueT::U64(x)) => v.push(*x),
            (VecT::Float(v), DataValueT::Float(b)) => {
                v.push(*b);
                proof {
                    assert(Seq::new(v@.len(), |i: int| v@[i] as u64)
                        =~= Seq::new((v@.len() - 1) as nat, |i: int| v@[i] as u64)
                            .push(v@.last() as u64));
                }
            },
            (VecT::Double(v), DataValueT::Double(b)) => v.push(*b),
            _ => {
                proof {
                    assert(false);
                }
            },
        }
    }

    /// Discard the most recently appended value, if any.
    pub fn pop(&mut self)
        ensures
            old(self)@.len() > 0 ==> final(self)@ == old(self)@.drop_last(),
            old(self)@.len() == 0 ==> final(self)@ == old(self)@,
            forall|v: DataValueT| value_fits(*old(self), v) == value_fits(*final(self), v),
            *final(self) is U64 <==> *old(self) is U64,
            *final(self) is Float <==> *old(self) is Float,
            *final(self) is Double <==> *old(self) is Double,
    {
        match self {
            VecT::U64(v) => {
                let _dropped = v.pop();
            },
            VecT::Float(v) => {
                let _dropped = v.pop();
                proof {
                    if v@.len() > 0 || old(self)@.len() > 0 {
                        assert(Seq::new(v@.len(), |i: int| v@[i] as u64)
                            =~= Seq::new((v@.len() + 1) as nat,
                                |i: int| old(self)@[i]).drop_last());
                    }
                }
            },
            VecT::Double(v) => {
                let _dropped = v.pop();
            },
        }
    }
}

/// The lexical form `u64` parsing accepts: an optional plus sign,
/// digits only, and a value that fits.
pub open spec fn spec_u64_digits(s: Seq<char>) -> Seq<char> {
    if s.len() > 0 && s[0] == '+' {
        s.skip(1)
    } else {
        s
    }
}

/// The numeric value of a digit string.
pub open spec fn spec_digits_value(s: Seq<char>) -> int
    decreases s.len(),
{
    if s.len() == 0 {
        0
    } else {
        spec_digits_value(s.drop_last()) * 10 + (s.last() as int - '0' as int)
    }
}

/// The string is an unsigned integer that fits in 64 bits.
pub open spec fn spec_is_u64_lexical(s: Seq<char>) -> bool {
    let t = spec_u64_digits(s);
    &&& t.len() > 0
    &&& crate::rdf::spec_all_digits(t)
    &&& spec_digits_value(t) <= u64::MAX
}

/// Parse an unsigned 64-bit integer from decimal text.
pub fn parse_u64(s: &str) -> (r: Result<u64, Error>)
    ensures
        match r {
            Ok(v) => spec_is_u64_lexical(s@)
                && v == spec_digits_value(spec_u64_digits(s@)),
            Err(e) => !spec_is_u64_lexical(s@) && e == Error::ParseInt,
        },
{
    let n = s.unicode_len();
    if n == 0 {
        return Err(Error::ParseInt);
    }
    let c0 = s.get_char(0);
    let start: usize = if c0 == '+' { 1 } else { 0 };
    if start >= n {
        proof {
            assert(spec_u64_digits(s@).len() == 0);
        }
        return Err(Error::ParseInt);
    }
    let ghost t = spec_u64_digits(s@);
    let mut acc: u64 = 0;
    let mut i: usize = start;
    proof {
        assert(t =~= (if s@[0] == '+' { s@.skip(1) } else { s@ }));
        assert(t.take(0) =~= Seq::<char>::empty());
    }
    while i < n
        invariant
            n == s@.len(),
            n >= 1,
            start <= i <= n,
            start <= 1,
            (start == 1) <==> (s@[0] == '+'),
            t == spec_u64_digits(s@),
            t.len() == n - start,
            forall|k: int| 0 <= k < t.len() ==> t[k] == s@[k + start],
            forall|k: int| 0 <= k < i - start
                ==> crate::rdf::spec_is_digit(#[trigger] t[k]),
            acc == spec_digits_value(t.take(i - start)),
        decreases n - i,
    {
        let c = s.get_char(i);
        if !('0' <= c && c <= '9') {
            proof {
                assert(t[i - start] == s@[i as int]);
                assert(!crate::rdf::spec_all_digits(t));
            }
            return Err(Error::ParseInt);
        }
        let d = (c as u32 - '0' as u32) as u64;
        proof {
            assert(t.take(i - start + 1).drop_last() =~= t.take(i - start));
            assert(t.take(i - start + 1).last() == t[i - start]);
        }
        if acc > (u64::MAX - d) / 10 {
            proof {
                if crate::rdf::spec_all_digits(t) {
                    lemma_digits_value_monotone(t, i - start + 1);
                    assert(spec_digits_value(t.take(i - start + 1)) > u64::MAX);
                }
            }
            return Err(Error::ParseInt);
        }
        acc = acc * 10 + d;
        i = i + 1;
    }
    proof {
        assert(t.take(t.len() as int) =~= t);
    }
    Ok(acc)
}

/// A digit string's value never shrinks as it grows: the whole string
/// is worth at least any prefix.
proof fn lemma_digits_value_monotone(t: Seq<char>, k: int)
    requires
        0 <= k <= t.len(),
        forall|j: int| 0 <= j < t.len() ==> crate::rdf::spec_is_digit(#[trigger] t[j]),
    ensures
        spec_digits_value(t) >= spec_digits_value(t.take(k)),
        spec_digits_value(t) >= 0,
        spec_digits_value(t.take(k)) >= 0,
    decreases t.len(),
{
    if t.len() == 0 {
        assert(t.take(k) =~= t);
    } else {
        lemma_digits_value_monotone(t.drop_last(), if k > t.len() - 1 { t.len() - 1 } else { k });
        if k == t.len() {
            assert(t.take(k) =~= t);
        } else {
            assert(t.take(k) =~= t.drop_last().take(k));
        }
        vstd::arithmetic::mul::lemma_mul_inequality(
            spec_digits_value(t.drop_last()), spec_digits_value(t.drop_last()), 10);
    }
}

/// The single-precision bit pattern is a NaN.
pub open spec fn f32_is_nan_bits(b: u32) -> bool {
    &&& (b >> 23) & 0xff == 0xff
    &&& b & 0x7f_ffff != 0
}

/// A cell as it reaches the engine: text for integer and dictionary
/// columns, and pre-converted bit patterns for float columns (the
/// conversion from text to bits happens outside the engine; `None`
/// stands for text that did not convert).
#[derive(Debug, Clone, PartialEq, Eq)]
pub enum RawCell {
    /// The cell's text.
    Text(String),
    /// A single-precision cell, already converted to bits.
    FloatBits(Option<u32>),
    /// A double-precision cell, already converted to bits.
    DoubleBits(Option<u64>),
}

/// The mathematical shape of a cell.
pub enum RawCellView {
    /// The cell's text.
    Text(Seq<char>),
    /// A single-precision cell, as bits.
    FloatBits(Option<u32>),
    /// A double-precision cell, as bits.
    DoubleBits(Option<u64>),
}

impl View for RawCell {
    type V = RawCellView;

    closed spec fn view(&self) -> RawCellView {
        match self {
            RawCell::Text(s) => RawCellView::Text(s@),
            RawCell::FloatBits(b) => RawCellView::FloatBits(*b),
            RawCell::DoubleBits(b) => RawCellView::DoubleBits(*b),
        }
    }
}

/// The cell parses as a value of the declared type.
pub open spec fn spec_cell_ok(dt: DataTypeName, c: RawCellView) -> bool {
    match (dt, c) {
        (DataTypeName::U64, RawCellView::Text(s)) => spec_is_u64_lexical(s),
        (DataTypeName::Float, RawCellView::FloatBits(Some(b))) => !f32_is_nan_bits(b),
        (DataTypeName::Double, RawCellView::DoubleBits(Some(b)))
            => !crate::double::is_nan_bits(b),
        _ => false,
    }
}

/// The 64-bit image of the parsed cell.
pub open spec fn spec_cell_bits(dt: DataTypeName, c: RawCellView) -> u64 {
    match (dt, c) {
        (DataTypeName::U64, RawCellView::Text(s))
            => spec_digits_value(spec_u64_digits(s)) as u64,
        (DataTypeName::Float, RawCellView::FloatBits(Some(b))) => b as u64,
        (DataTypeName::Double, RawCellView::DoubleBits(Some(b))) => b,
        _ => 0,
    }
}

impl DataTypeName {
    /// Parse a cell of this type; a NaN float is rejected.
    pub fn parse(&self, item: &RawCell) -> (r: Result<DataValueT, Error>)
        ensures
            match r {
                Ok(v) => spec_cell_ok(*self, item@)
                    && spec_value_bits(v) == spec_cell_bits(*self, item@)
                    && match *self {
                        DataTypeName::U64 => v is U64,
                        DataTypeName::Float => v is Float,
                        DataTypeName::Double => v is Double,
                    },
                Err(_) => !spec_cell_ok(*self, item@),
            },
    {
        match (self, item) {
            (DataTypeName::U64, RawCell::Text(s)) => match parse_u64(s.as_str()) {
                Ok(v) => Ok(DataValueT::U64(v)),
                Err(e) => Err(e),
            },
            (DataTypeName::Float, RawCell::FloatBits(Some(b))) => {
                if (*b >> 23) & 0xff == 0xff && *b & 0x7f_ffff != 0 {
                    Err(Error::FloatIsNaN)
                } else {
                    Ok(DataValueT::Float(*b))
                }
            },
            (DataTypeName::Double, RawCell::DoubleBits(Some(b))) => {
                if (*b >> 52) & 0x7ff == 0x7ff && *b & 0xf_ffff_ffff_ffff != 0 {
                    Err(Error::FloatIsNaN)
                } else {
                    Ok(DataValueT::Double(*b))
                }
            },
            (DataTypeName::Float, _) => Err(Error::ParseFloat),
            (DataTypeName::Double, _) => Err(Error::ParseFloat),
            (DataTypeName::U64, _) => Err(Error::ParseInt),
        }
    }
}

// ------------------------------------------------------------------
// Row import with cell-level rollback
// ------------------------------------------------------------------

/// The view of one row of cells.
pub open spec fn row_view(r: Seq<RawCell>) -> Seq<RawCellView> {
    Seq::new(r.len(), |i: int| r[i]@)
}

/// The view of a batch of rows.
pub open spec fn batch_view(rows: Seq<Vec<RawCell>>) -> Seq<Seq<RawCellView>> {
    Seq::new(rows.len(), |i: int| row_view(rows[i]@))
}

/// Every cell of the row parses under its column's declared type; an
/// undeclared column takes the cell's text.
pub open spec fn spec_row_ok(dts: Seq<Option<DataTypeName>>, row: Seq<RawCellView>) -> bool {
    &&& row.len() == dts.len()
    &&& forall|idx: int| 0 <= idx < dts.len() ==> match #[trigger] dts[idx] {
        Some(dt) => spec_cell_ok(dt, row[idx]),
        None => row[idx] is Text,
    }
}

/// The rows of the batch that import whole, in order.
pub open spec fn spec_accepted_rows(
    dts: Seq<Option<DataTypeName>>,
    rows: Seq<Seq<RawCellView>>,
) -> Seq<Seq<RawCellView>>
    decreases rows.len(),
{
    if rows.len() == 0 {
        Seq::empty()
    } else if spec_row_ok(dts, rows.last()) {
        spec_accepted_rows(dts, rows.drop_last()).push(rows.last())
    } else {
        spec_accepted_rows(dts, rows.drop_last())
    }
}

/// The text of a cell, where it has one.
pub open spec fn spec_cell_text(c: RawCellView) -> Seq<char> {
    match c {
        RawCellView::Text(s) => s,
        _ => Seq::empty(),
    }
}

/// The stored column value stands for the cell: the parsed image for a
/// declared type, the dictionary handle of the text otherwise.
pub open spec fn cell_stored(
    col_val: u64,
    dt: Option<DataTypeName>,
    cell: RawCellView,
    dict: Seq<Seq<char>>,
) -> bool {
    match dt {
        Some(d) => col_val == spec_cell_bits(d, cell),
        None => col_val < dict.len() && dict[col_val as int] == spec_cell_text(cell),
    }
}

/// The column enum variant a declared type uses.
pub open spec fn col_kind_matches(dt: Option<DataTypeName>, col: VecT) -> bool {
    match dt {
        Some(DataTypeName::U64) => col is U64,
        Some(DataTypeName::Float) => col is Float,
        Some(DataTypeName::Double) => col is Double,
        None => col is U64,
    }
}

/// The columns hold, row by row, exactly the accepted rows.
pub open spec fn columns_hold_rows(
    cols: Seq<VecT>,
    dts: Seq<Option<DataTypeName>>,
    acc: Seq<Seq<RawCellView>>,
    dict: Seq<Seq<char>>,
) -> bool {
    &&& cols.len() == dts.len()
    &&& forall|c: int| 0 <= c < cols.len() ==> (#[trigger] cols[c])@.len() == acc.len()
    &&& forall|c: int, j: int| 0 <= c < cols.len() && 0 <= j < acc.len()
        ==> #[trigger] cell_stored(cols[c]@[j], dts[c], acc[j][c], dict)
}

/// Import a batch of rows into one typed column per declared type.  A
/// row whose width differs from the declaration, or with a cell its
/// column's type refuses, leaves no cell behind in any column: cells
/// already appended for that row are rolled back one by one.  Each
/// accepted row contributes exactly one cell to every column.
pub fn read(
    datatypes: &Vec<Option<DataTypeName>>,
    rows: &Vec<Vec<RawCell>>,
    dictionary: &mut Dictionary,
) -> (r: Result<Vec<VecT>, Error>)
    requires
        old(dictionary).wf(),
    ensures
        final(dictionary).wf(),
        final(dictionary)@.len() >= old(dictionary)@.len(),
        forall|k: int| 0 <= k < old(dictionary)@.len()
            ==> final(dictionary)@[k] == old(dictionary)@[k],
        match r {
            Ok(cols) => {
                &&& columns_hold_rows(
                    cols@, datatypes@,
                    spec_accepted_rows(datatypes@, batch_view(rows@)),
                    final(dictionary)@,
                )
                &&& forall|c: int| 0 <= c < cols@.len()
                    ==> col_kind_matches(datatypes@[c], #[trigger] cols@[c])
            },
            Err(_) => false,
        },
{
    let ncols = datatypes.len();
    let mut result: Vec<VecT> = Vec::new();
    let mut c0: usize = 0;
    while c0 < ncols
        invariant
            ncols == datatypes@.len(),
            c0 <= ncols,
            result@.len() == c0,
            forall|c: int| 0 <= c < c0
                ==> col_kind_matches(datatypes@[c], #[trigger] result@[c])
                    && result@[c]@.len() == 0,
        decreases ncols - c0,
    {
        let col = match &datatypes[c0] {
            Some(DataTypeName::U64) => VecT::U64(Vec::new()),
            Some(DataTypeName::Float) => VecT::Float(Vec::new()),
            Some(DataTypeName::Double) => VecT::Double(Vec::new()),
            None => VecT::U64(Vec::new()),
        };
        proof {
            assert(col@ =~= Seq::<u64>::empty());
        }
        result.push(col);
        c0 = c0 + 1;
    }

    let ghost bv = batch_view(rows@);
    let nrows = rows.len();
    let mut i: usize = 0;
    proof {
        assert(bv.take(0) =~= Seq::<Seq<RawCellView>>::empty());
        assert(spec_accepted_rows(datatypes@, bv.take(0)) =~= Seq::<Seq<RawCellView>>::empty());
    }
    while i < nrows
        invariant
            ncols == datatypes@.len(),
            nrows == rows@.len(),
            i <= nrows,
            bv == batch_view(rows@),
            dictionary.wf(),
            dictionary@.len() >= old(dictionary)@.len(),
            forall|k: int| 0 <= k < old(dictionary)@.len()
                ==> dictionary@[k] == old(dictionary)@[k],
            result@.len() == ncols,
            forall|c: int| 0 <= c < ncols
                ==> col_kind_matches(datatypes@[c], #[trigger] result@[c]),
            columns_hold_rows(
                result@, datatypes@,
                spec_accepted_rows(datatypes@, bv.take(i as int)),
                dictionary@,
            ),
        decreases nrows - i,
    {
        let ghost acc_pre = spec_accepted_rows(datatypes@, bv.take(i as int));
        let ghost rv = row_view(rows@[i as int]@);
        proof {
            assert(bv.take(i as int + 1).drop_last() =~= bv.take(i as int));
            assert(bv.take(i as int + 1).last() == bv[i as int]);
            assert(bv[i as int] == rv);
        }
        let row = &rows[i];
        if row.len() != ncols {
            proof {
                assert(!spec_row_ok(datatypes@, rv));
                assert(spec_accepted_rows(datatypes@, bv.take(i as int + 1)) =~= acc_pre);
            }
            i = i + 1;
            continue;
        }
        // append the row's cells one by one; remember how many went in
        let ghost dict_pre = dictionary@;
        let ghost cols_pre = result@;
        let mut pushed: usize = 0;
        let mut failed = false;
        while pushed < ncols
            invariant_except_break
                !failed,
            invariant
                ncols == datatypes@.len(),
                result@.len() == ncols,
                rv == row_view(row@),
                row@.len() == ncols,
                pushed <= ncols,
                dictionary.wf(),
                dictionary@.len() >= dict_pre.len(),
                forall|k: int| 0 <= k < dict_pre.len() ==> dictionary@[k] == dict_pre[k],
                dict_pre.len() >= old(dictionary)@.len(),
                forall|k: int| 0 <= k < old(dictionary)@.len()
                    ==> dict_pre[k] == old(dictionary)@[k],
                columns_hold_rows(cols_pre, datatypes@, acc_pre, dict_pre),
                cols_pre.len() == ncols,
                forall|c: int| 0 <= c < ncols
                    ==> col_kind_matches(datatypes@[c], #[trigger] result@[c]),
                forall|c: int| pushed <= c < ncols
                    ==> (#[trigger] result@[c])@ == cols_pre[c]@,
                forall|c: int| 0 <= c < pushed
                    ==> (#[trigger] result@[c])@.len() == cols_pre[c]@.len() + 1
                        && result@[c]@.drop_last() == cols_pre[c]@
                        && cell_stored(result@[c]@.last(), datatypes@[c], rv[c], dictionary@),
                forall|c: int| 0 <= c < pushed ==> match #[trigger] datatypes@[c] {
                    Some(dt) => spec_cell_ok(dt, rv[c]),
                    None => rv[c] is Text,
                },
            ensures
                failed || pushed == ncols,
                failed ==> !spec_row_ok(datatypes@, rv),
            decreases ncols - pushed,
        {
            let cell = &row[pushed];
            proof {
                assert(rv[pushed as int] == row@[pushed as int]@);
            }
            match &datatypes[pushed] {
                Some(dt) => {
                    match dt.parse(cell) {
                        Ok(val) => {
                            let ghost pre_col = result@[pushed as int];
                            result[pushed].push(&val);
                            proof {
                                assert(result@[pushed as int]@
                                    == pre_col@.push(spec_value_bits(val)));
                                assert(result@[pushed as int]@.drop_last() =~= pre_col@);
                            }
                        },
                        Err(_) => {
                            failed = true;
                            proof {
                                assert(!spec_row_ok(datatypes@, rv));
                            }
                        },
                    }
                },
                None => {
                    match cell {
                        RawCell::Text(text) => {
                            let ghost dict_head = dictionary@;
                            let handle = dictionary.add(
                                crate::dictionary::clone_string(text));
                            let ghost pre_col = result@[pushed as int];
                            result[pushed].push(&DataValueT::U64(handle as u64));
                            proof {
                                assert(result@[pushed as int]@.drop_last() =~= pre_col@);
                                // earlier handles survive the dictionary's growth
                                assert forall|c: int| 0 <= c < pushed implies
                                    cell_stored((#[trigger] result@[c])@.last(),
                                        datatypes@[c], rv[c], dictionary@) by {
                                    assert(cell_stored(result@[c]@.last(),
                                        datatypes@[c], rv[c], dict_head));
                                    match datatypes@[c] {
                                        Some(_) => {},
                                        None => {
                                            let h = result@[c]@.last();
                                            assert(h < dict_head.len());
                                            assert(dictionary@[h as int]
                                                == dict_head[h as int]);
                                        },
                                    }
                                }
                            }
                        },
                        _ => {
                            failed = true;
                            proof {
                                assert(!spec_row_ok(datatypes@, rv));
                            }
                        },
                    }
                },
            }
            if failed {
                break;
            }
            pushed = pushed + 1;
        }
        if failed {
            // roll back the cells of this row that already went in
            let ghost dict_now = dictionary@;
            let mut k: usize = 0;
            while k < pushed
                invariant
                    ncols == datatypes@.len(),
                    result@.len() == ncols,
                    k <= pushed,
                    pushed <= ncols,
                    dictionary@ == dict_now,
                    dictionary.wf(),
                    dict_now.len() >= dict_pre.len(),
                    forall|kk: int| 0 <= kk < dict_pre.len()
                        ==> dict_now[kk] == dict_pre[kk],
                    dict_pre.len() >= old(dictionary)@.len(),
                    forall|kk: int| 0 <= kk < old(dictionary)@.len()
                        ==> dict_pre[kk] == old(dictionary)@[kk],
                    columns_hold_rows(cols_pre, datatypes@, acc_pre, dict_pre),
                    cols_pre.len() == ncols,
                    forall|c: int| 0 <= c < ncols
                        ==> col_kind_matches(datatypes@[c], #[trigger] result@[c]),
                    forall|c: int| 0 <= c < k
                        ==> (#[trigger] result@[c])@ == cols_pre[c]@,
                    forall|c: int| k <= c < pushed
                        ==> (#[trigger] result@[c])@.len() == cols_pre[c]@.len() + 1
                            && result@[c]@.drop_last() == cols_pre[c]@,
                    forall|c: int| pushed <= c < ncols
                        ==> (#[trigger] result@[c])@ == cols_pre[c]@,
                decreases pushed - k,
            {
                result[k].pop();
                k = k + 1;
            }
            proof {
                assert(!spec_row_ok(datatypes@, rv));
                assert(spec_accepted_rows(datatypes@, bv.take(i as int + 1)) =~= acc_pre);
                assert forall|c: int, j: int|
                    0 <= c < ncols && 0 <= j < acc_pre.len() implies
                    #[trigger] cell_stored(result@[c]@[j], datatypes@[c],
                        acc_pre[j][c], dictionary@) by {
                    assert(result@[c]@ == cols_pre[c]@);
                    assert(cell_stored(cols_pre[c]@[j], datatypes@[c],
                        acc_pre[j][c], dict_pre));
                    match datatypes@[c] {
                        Some(_) => {},
                        None => {
                            let h = cols_pre[c]@[j];
                            assert(h < dict_pre.len());
                            assert(dictionary@[h as int] == dict_pre[h as int]);
                        },
                    }
                }
            }
        } else {
            proof {
                assert(pushed == ncols);
                assert(spec_row_ok(datatypes@, rv));
                let acc_post = spec_accepted_rows(datatypes@, bv.take(i as int + 1));
                assert(acc_post =~= acc_pre.push(rv));
                assert forall|c: int, j: int|
                    0 <= c < ncols && 0 <= j < acc_post.len() implies
                    #[trigger] cell_stored(result@[c]@[j], datatypes@[c],
                        acc_post[j][c], dictionary@) by {
                    if j < acc_pre.len() {
                        assert(cell_stored(cols_pre[c]@[j], datatypes@[c],
                            acc_pre[j][c], dict_pre));
                        assert(result@[c]@[j] == cols_pre[c]@[j]);
                        assert(acc_post[j] == acc_pre[j]);
                        match datatypes@[c] {
                            Some(_) => {},
                            None => {
                                assert(cols_pre[c]@[j] < dict_pre.len());
                                assert(dictionary@[cols_pre[c]@[j] as int]
                                    == dict_pre[cols_pre[c]@[j] as int]);
                            },
                        }
                    } else {
                        assert(j == acc_pre.len());
                        assert(acc_post[j] == rv);
                        assert(result@[c]@[j] == result@[c]@.last());
                    }
                }
            }
        }
        i = i + 1;
    }
    proof {
        assert(bv.take(nrows as int) =~= bv);
    }
    Ok(result)
}

// ------------------------------------------------------------------
// The trusted wrapper over the csv crate
// ------------------------------------------------------------------

/// The records the csv reader finds in the input bytes, under the given
/// delimiter and header setting; records that fail to read are left out.
pub uninterp spec fn csv_rows(data: Seq<u8>, delimiter: u8, has_headers: bool)
    -> Seq<Seq<Seq<char>>>;

/// Relies on csv::ReaderBuilder and Reader::records: the records depend
/// on the input bytes, the delimiter and the header setting alone;
/// unreadable records are skipped.
#[verifier::external_body]
fn csv_records_raw(data: &[u8], delimiter: u8, has_headers: bool) -> (r: Vec<Vec<String>>)
    ensures
        r.deep_view() == csv_rows(data@, delimiter, has_headers),
{
    let mut rdr = csv::ReaderBuilder::new()
        .delimiter(delimiter)
        .has_headers(has_headers)
        .from_reader(data);
    let mut out: Vec<Vec<String>> = Vec::new();
    for rec in rdr.records() {
        if let Ok(row) = rec {
            out.push(row.iter().map(|cell| cell.to_string()).collect());
        }
    }
    out
}

/// Rows of plain text cells, as the engine's cell model sees them.
pub open spec fn text_rows(rs: Seq<Seq<Seq<char>>>) -> Seq<Seq<RawCellView>> {
    Seq::new(rs.len(), |i: int| Seq::new(rs[i].len(), |j: int| RawCellView::Text(rs[i][j])))
}

/// Read a whole CSV input: split it into records with the csv crate and
/// import the rows, rolling back any row with a refused cell.  Cells
/// reach the columns as text, so a column declared with a float type
/// accepts no row here; those rows come through `read` with
/// pre-converted cells.
pub fn read_csv(
    data: &[u8],
    delimiter: u8,
    has_headers: bool,
    datatypes: &Vec<Option<DataTypeName>>,
    dictionary: &mut Dictionary,
) -> (r: Result<Vec<VecT>, Error>)
    requires
        old(dictionary).wf(),
    ensures
        final(dictionary).wf(),
        match r {
            Ok(cols) => {
                &&& columns_hold_rows(
                    cols@, datatypes@,
                    spec_accepted_rows(
                        datatypes@,
                        text_rows(csv_rows(data@, delimiter, has_headers)),
                    ),
                    final(dictionary)@,
                )
                &&& forall|c: int| 0 <= c < cols@.len()
                    ==> col_kind_matches(datatypes@[c], #[trigger] cols@[c])
            },
            Err(_) => false,
        },
{
    let records = csv_records_raw(data, delimiter, has_headers);
    let mut rows: Vec<Vec<RawCell>> = Vec::new();
    let nr = records.len();
    let mut i: usize = 0;
    while i < nr
        invariant
            nr == records@.len(),
            i <= nr,
            rows@.len() == i,
            forall|k: int| 0 <= k < i
                ==> row_view((#[trigger] rows@[k])@)
                    == text_rows(records.deep_view())[k],
        decreases nr - i,
    {
        let rec = &records[i];
        let mut row: Vec<RawCell> = Vec::new();
        let m = rec.len();
        let mut j: usize = 0;
        while j < m
            invariant
                m == rec@.len(),
                j <= m,
                row@.len() == j,
                forall|k: int| 0 <= k < j
                    ==> (#[trigger] row@[k])@ == RawCellView::Text(rec@[k]@),
            decreases m - j,
        {
            row.push(RawCell::Text(crate::dictionary::clone_string(&rec[j])));
            j = j + 1;
        }
        proof {
            assert(row_view(row@) =~= text_rows(records.deep_view())[i as int]) by {
                assert forall|k: int| 0 <= k < row@.len() implies
                    row_view(row@)[k] == text_rows(records.deep_view())[i as int][k] by {
                    assert(records.deep_view()[i as int][k] == rec@[k]@);
                }
            }
        }
        rows.push(row);
        i = i + 1;
    }
    proof {
        assert(batch_view(rows@) =~= text_rows(csv_rows(data@, delimiter, has_headers))) by {
            assert(records.deep_view() == csv_rows(data@, delimiter, has_headers));
            assert forall|k: int| 0 <= k < rows@.len() implies
                batch_view(rows@)[k]
                    == text_rows(csv_rows(data@, delimiter, has_headers))[k] by {
                assert(row_view(rows@[k]@) == text_rows(records.deep_view())[k]);
            }
        }
    }
    read(datatypes, &rows, dictionary)
}

} // verus!
