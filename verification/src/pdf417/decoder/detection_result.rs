//! The columns of codewords detected in a PDF417 symbol, and the
//! adjustment of their row numbers.
//!
//! Column 0 and the last column hold the row indicators; the columns
//! between them hold the data.  The row numbers are adjusted pass by pass
//! until a pass leaves the number of codewords without a valid row number
//! unchanged.

use crate::pdf417::decoder::codeword::{row_fits_bucket, BarcodeMetadata, BoundingBox, Codeword};
use vstd::prelude::*;

verus! {

/// After so many codewords in a row that do not fit the row indicator,
/// the row is given up.
pub const ADJUST_ROW_NUMBER_SKIP: u32 = 2;

pub const MAX_CODEWORDS_IN_BARCODE: u32 = 928;

/// The most data columns that a detection result holds.
pub const MAX_COLUMNS: usize = 0xFFFF;

/// The most rows of codewords that a column holds.
pub const MAX_ROWS: usize = 0x3FFF;

/// The codewords of a column, where it was detected.
pub type Cells = Seq<Option<Seq<Option<Codeword>>>>;

/// The codeword in row `r` of column `c`, if there is one.
pub open spec fn cell(g: Cells, c: int, r: int) -> Option<Codeword> {
    if 0 <= c < g.len() && g[c] is Some && 0 <= r < g[c]->Some_0.len() {
        g[c]->Some_0[r]
    } else {
        None
    }
}

/// Whether column `c` was detected and has a row `r`.
pub open spec fn has_cell(g: Cells, c: int, r: int) -> bool {
    0 <= c < g.len() && g[c] is Some && 0 <= r < g[c]->Some_0.len()
}

/// The cells with another content in row `r` of column `c`.
pub open spec fn with_cell(g: Cells, c: int, r: int, v: Option<Codeword>) -> Cells {
    if has_cell(g, c, r) {
        g.update(c, Some(g[c]->Some_0.update(r, v)))
    } else {
        g
    }
}

/// The same columns were detected, with the same numbers of rows.
pub open spec fn same_shape(a: Cells, b: Cells) -> bool {
    &&& a.len() == b.len()
    &&& forall|c: int|
        0 <= c < a.len() ==> ((#[trigger] a[c]) is Some <==> b[c] is Some) && (a[c] is Some
            ==> a[c]->Some_0.len() == b[c]->Some_0.len())
}

/// Every detected column has `rows` rows.
pub open spec fn uniform(g: Cells, rows: int) -> bool {
    forall|c: int| 0 <= c < g.len() && (#[trigger] g[c]) is Some ==> g[c]->Some_0.len() == rows
}

/// The number of rows of the last detected column among the first `upto`; 0 if there is none.
pub open spec fn rows_of(g: Cells, upto: int) -> int
    decreases upto,
{
    if upto <= 0 {
        0
    } else if upto <= g.len() && g[upto - 1] is Some {
        g[upto - 1]->Some_0.len() as int
    } else {
        rows_of(g, upto - 1)
    }
}

/// Whether `other` has a valid row number and the bucket of `cw`, so
/// that `cw` can take its row number.
pub open spec fn can_take_row_of(cw: Codeword, other: Option<Codeword>) -> bool {
    other matches Some(o) && o.valid() && o.bucket == cw.bucket
}

/// `cw` with the row number of `other`, if it can take it.
pub open spec fn with_row_of(cw: Codeword, other: Option<Codeword>) -> Codeword {
    if can_take_row_of(cw, other) {
        cw.with_row(other->Some_0.row_number)
    } else {
        cw
    }
}

/// A codeword held against the row number of its row indicator: a
/// codeword without a valid row number takes the number if it fits.
pub open spec fn checked_against(cw: Codeword, indicated: i32) -> Codeword {
    if !cw.valid() && row_fits_bucket(cw.bucket, indicated) {
        cw.with_row(indicated)
    } else {
        cw
    }
}

/// The number of codewords in a row that did not fit, after `cw`.
pub open spec fn invalid_after(cw: Codeword, indicated: i32, invalid: int) -> int {
    if cw.valid() {
        invalid
    } else if row_fits_bucket(cw.bucket, indicated) {
        0
    } else {
        invalid + 1
    }
}

/// Cells after an adjustment, and the number of codewords counted as
/// without a valid row number.
pub struct Adjusted {
    pub cells: Cells,
    pub unadjusted: int,
}

/// Whether both row indicators have a codeword in row `r` and agree on its row number.
pub open spec fn indicators_agree(g: Cells, count: int, r: int) -> bool {
    cell(g, 0, r) is Some && cell(g, count + 1, r) is Some && cell(g, 0, r)->Some_0.row_number
        == cell(g, count + 1, r)->Some_0.row_number
}

/// A cell after the adjustment from both row indicators: where they
/// agree, each codeword of a data column takes their row number, and is
/// dropped if the number does not fit it.
pub open spec fn cell_from_both(g: Cells, count: int, c: int, r: int) -> Option<Codeword> {
    if 1 <= c <= count && indicators_agree(g, count, r) && cell(g, c, r) is Some {
        let cw = cell(g, c, r)->Some_0.with_row(cell(g, 0, r)->Some_0.row_number);
        if cw.valid() {
            Some(cw)
        } else {
            None
        }
    } else {
        cell(g, c, r)
    }
}

/// The cells after the adjustment from both row indicators.
pub open spec fn from_both(g: Cells, count: int) -> Cells {
    Seq::new(
        g.len(),
        |c: int|
            match g[c] {
                Some(col) => Some(Seq::new(col.len(), |r: int| cell_from_both(g, count, c, r))),
                None => None,
            },
    )
}

/// Row `r` held against the row number `indicated`, from column `c`
/// towards the right, until two codewords in a row did not fit.
pub open spec fn scan_right(
    g: Cells,
    count: int,
    r: int,
    indicated: i32,
    c: int,
    invalid: int,
    unadjusted: int,
) -> Adjusted
    decreases count + 1 - c,
{
    if c < 1 || c >= count + 1 || invalid >= ADJUST_ROW_NUMBER_SKIP {
        Adjusted { cells: g, unadjusted }
    } else {
        match cell(g, c, r) {
            Some(cw) => {
                let checked = checked_against(cw, indicated);
                scan_right(
                    with_cell(g, c, r, Some(checked)),
                    count,
                    r,
                    indicated,
                    c + 1,
                    invalid_after(cw, indicated, invalid),
                    unadjusted + if checked.valid() {
                        0int
                    } else {
                        1int
                    },
                )
            },
            None => scan_right(g, count, r, indicated, c + 1, invalid, unadjusted),
        }
    }
}

/// Row `r` held against the row number `indicated`, from column `c`
/// towards the left, until two codewords in a row did not fit.
pub open spec fn scan_left(
    g: Cells,
    r: int,
    indicated: i32,
    c: int,
    invalid: int,
    unadjusted: int,
) -> Adjusted
    decreases c,
{
    if c <= 0 || invalid >= ADJUST_ROW_NUMBER_SKIP {
        Adjusted { cells: g, unadjusted }
    } else {
        match cell(g, c, r) {
            Some(cw) => {
                let checked = checked_against(cw, indicated);
                scan_left(
                    with_cell(g, c, r, Some(checked)),
                    r,
                    indicated,
                    c - 1,
                    invalid_after(cw, indicated, invalid),
                    unadjusted + if checked.valid() {
                        0int
                    } else {
                        1int
                    },
                )
            },
            None => scan_left(g, r, indicated, c - 1, invalid, unadjusted),
        }
    }
}

/// The first `rows` rows adjusted from the left row indicator.
pub open spec fn from_left(g: Cells, count: int, rows: int) -> Adjusted
    decreases rows,
{
    if rows <= 0 {
        Adjusted { cells: g, unadjusted: 0 }
    } else {
        let before = from_left(g, count, rows - 1);
        match cell(before.cells, 0, rows - 1) {
            Some(indicator) => {
                let row = scan_right(before.cells, count, rows - 1, indicator.row_number, 1, 0, 0);
                Adjusted { cells: row.cells, unadjusted: before.unadjusted + row.unadjusted }
            },
            None => before,
        }
    }
}

/// The first `rows` rows adjusted from the right row indicator.
pub open spec fn from_right(g: Cells, count: int, rows: int) -> Adjusted
    decreases rows,
{
    if rows <= 0 {
        Adjusted { cells: g, unadjusted: 0 }
    } else {
        let before = from_right(g, count, rows - 1);
        match cell(before.cells, count + 1, rows - 1) {
            Some(indicator) => {
                let row = scan_left(before.cells, rows - 1, indicator.row_number, count + 1, 0, 0);
                Adjusted { cells: row.cells, unadjusted: before.unadjusted + row.unadjusted }
            },
            None => before,
        }
    }
}

/// The column after column `c`, or the one before it where none was detected after it.
pub open spec fn next_column(g: Cells, c: int) -> int {
    if 0 <= c + 1 < g.len() && g[c + 1] is Some {
        c + 1
    } else {
        c - 1
    }
}

/// The `k`-th neighbor of the codeword in row `r` of column `c`: first
/// the nearest ones in the column and in the columns beside it, then
/// those two rows away.
pub open spec fn neighbor(g: Cells, c: int, r: int, k: int) -> Option<Codeword> {
    let before = c - 1;
    let after = next_column(g, c);
    if k == 0 {
        cell(g, c, r - 1)
    } else if k == 1 {
        cell(g, c, r + 1)
    } else if k == 2 {
        cell(g, before, r)
    } else if k == 3 {
        cell(g, after, r)
    } else if k == 4 {
        cell(g, before, r - 1)
    } else if k == 5 {
        cell(g, after, r - 1)
    } else if k == 6 {
        cell(g, before, r + 1)
    } else if k == 7 {
        cell(g, after, r + 1)
    } else if k == 8 {
        cell(g, c, r - 2)
    } else if k == 9 {
        cell(g, c, r + 2)
    } else if k == 10 {
        cell(g, before, r - 2)
    } else if k == 11 {
        cell(g, after, r - 2)
    } else if k == 12 {
        cell(g, before, r + 2)
    } else {
        cell(g, after, r + 2)
    }
}

/// `cw` with the row number of the first neighbor from the `k`-th on
/// whose row number it can take.
pub open spec fn from_neighbors(cw: Codeword, g: Cells, c: int, r: int, k: int) -> Codeword
    decreases 14 - k,
{
    if k < 0 || k >= 14 {
        cw
    } else if can_take_row_of(cw, neighbor(g, c, r, k)) {
        with_row_of(cw, neighbor(g, c, r, k))
    } else {
        from_neighbors(cw, g, c, r, k + 1)
    }
}

/// The cells after the codeword in row `r` of column `c`, if it has no
/// valid row number, has looked at its neighbors.
pub open spec fn looked_around(g: Cells, c: int, r: int) -> Cells {
    match cell(g, c, r) {
        Some(cw) => if cw.valid() {
            g
        } else {
            with_cell(g, c, r, Some(from_neighbors(cw, g, c, r, 0)))
        },
        None => g,
    }
}

/// The cells after the first `rows` codewords of column `c` have looked around.
pub open spec fn column_looked_around(g: Cells, c: int, rows: int) -> Cells
    decreases rows,
{
    if rows <= 0 {
        g
    } else {
        looked_around(column_looked_around(g, c, rows - 1), c, rows - 1)
    }
}

/// The cells after the data columns before column `upto` have looked around.
pub open spec fn columns_looked_around(g: Cells, upto: int, rows: int) -> Cells
    decreases upto,
{
    if upto <= 1 {
        g
    } else {
        column_looked_around(columns_looked_around(g, upto - 1, rows), upto - 1, rows)
    }
}

/// The adjustment by row: from both row indicators, then from the left
/// one, then from the right one.
pub open spec fn by_row(g: Cells, count: int, rows: int) -> Adjusted {
    let left = from_left(from_both(g, count), count, rows);
    let right = from_right(left.cells, count, rows);
    Adjusted { cells: right.cells, unadjusted: left.unadjusted + right.unadjusted }
}

/// One pass of the adjustment: by row, and if that leaves codewords
/// without a valid row number, by the neighbors of each of them.
pub open spec fn one_pass(g: Cells, count: int, rows: int) -> Adjusted {
    let rowwise = by_row(g, count, rows);
    if rowwise.unadjusted == 0 {
        rowwise
    } else {
        Adjusted {
            cells: columns_looked_around(rowwise.cells, count + 1, rows),
            unadjusted: rowwise.unadjusted,
        }
    }
}

/// The passes repeated while each leaves fewer codewords without a valid
/// row number than the one before.
pub open spec fn settled(g: Cells, count: int, rows: int, previous: int) -> Cells
    decreases previous,
{
    let pass = one_pass(g, count, rows);
    if pass.unadjusted > 0 && pass.unadjusted < previous {
        settled(pass.cells, count, rows, pass.unadjusted)
    } else {
        pass.cells
    }
}

/// A codeword of a row indicator column with the row number that follows
/// from its value and bucket; it is dropped if that row lies beyond the
/// rows of the symbol.
pub open spec fn indicator_codeword(cw: Option<Codeword>, metadata: BarcodeMetadata) -> Option<
    Codeword,
> {
    match cw {
        Some(cw) => if cw.indicator_row() > metadata.row_count {
            None
        } else {
            Some(cw.with_row(cw.indicator_row()))
        },
        None => None,
    }
}

/// The codewords of a row indicator column with their row numbers set.
pub open spec fn indicator_column(codewords: Seq<Option<Codeword>>, metadata: BarcodeMetadata) -> Seq<
    Option<Codeword>,
> {
    Seq::new(codewords.len(), |r: int| indicator_codeword(codewords[r], metadata))
}

/// The cells with column `c` adjusted as a row indicator column.
pub open spec fn with_indicator(g: Cells, c: int, metadata: BarcodeMetadata) -> Cells {
    if 0 <= c < g.len() && g[c] is Some {
        g.update(c, Some(indicator_column(g[c]->Some_0, metadata)))
    } else {
        g
    }
}

/// The codewords of a column, if there is one.
pub open spec fn cells_of(column: Option<DetectionRXingResultColumn>) -> Option<
    Seq<Option<Codeword>>,
> {
    match column {
        Some(col) => Some(col.cells()),
        None => None,
    }
}

/// One column of codewords, a slot for every row of the column.
#[derive(Debug, Clone)]
pub struct DetectionRXingResultColumn {
    boundingBox: BoundingBox,
    codewords: Vec<Option<Codeword>>,
}

impl DetectionRXingResultColumn {
    pub closed spec fn cells(&self) -> Seq<Option<Codeword>> {
        self.codewords@
    }

    pub closed spec fn bounding_box(&self) -> BoundingBox {
        self.boundingBox
    }

    /// A column of the given rows.
    pub fn new(bounding_box: BoundingBox, codewords: Vec<Option<Codeword>>) -> (r: Self)
        ensures
            r.cells() == codewords@,
            r.bounding_box() == bounding_box,
    {
        Self { boundingBox: bounding_box, codewords }
    }

    pub fn getCodewords(&self) -> (r: &Vec<Option<Codeword>>)
        ensures
            r@ == self.cells(),
    {
        &self.codewords
    }

    pub fn getBoundingBox(&self) -> (r: &BoundingBox)
        ensures
            *r == self.bounding_box(),
    {
        &self.boundingBox
    }

    pub fn setCodeword(&mut self, row: usize, codeword: Option<Codeword>)
        requires
            row < old(self).cells().len(),
        ensures
            final(self).cells() == old(self).cells().update(row as int, codeword),
            final(self).bounding_box() == old(self).bounding_box(),
    {
        self.codewords.set(row, codeword);
    }

    /// Sets the row number of every codeword as that of a row indicator.
    pub fn adjustCompleteIndicatorColumnRowNumbers(&mut self, metadata: &BarcodeMetadata)
        ensures
            final(self).cells() == indicator_column(old(self).cells(), *metadata),
            final(self).bounding_box() == old(self).bounding_box(),
    {
        let n = self.codewords.len();
        let mut r: usize = 0;
        while r < n
            invariant
                r <= n,
                n == self.codewords.len(),
                self.boundingBox == old(self).boundingBox,
                self.codewords.len() == old(self).codewords.len(),
                forall|i: int|
                    0 <= i < n ==> #[trigger] self.codewords@[i] == if i < r {
                        indicator_codeword(old(self).codewords@[i], *metadata)
                    } else {
                        old(self).codewords@[i]
                    },
            decreases n - r,
        {
            match self.codewords[r] {
                Some(cw) => {
                    let mut adjusted = cw;
                    adjusted.setRowNumberAsRowIndicatorColumn();
                    if adjusted.getRowNumber() as i64 > metadata.getRowCount() as i64 {
                        self.codewords.set(r, None);
                    } else {
                        self.codewords.set(r, Some(adjusted));
                    }
                },
                None => {},
            }
            r += 1;
        }
        assert(self.codewords@ =~= indicator_column(old(self).cells(), *metadata));
    }
}

/// The columns of codewords detected in a symbol.
pub struct DetectionRXingResult {
    barcodeMetadata: BarcodeMetadata,
    detectionRXingResultColumns: Vec<Option<DetectionRXingResultColumn>>,
    boundingBox: BoundingBox,
    barcodeColumnCount: usize,
}

impl DetectionRXingResult {
    /// The codewords of all columns.
    pub closed spec fn cells(&self) -> Cells {
        Seq::new(
            self.detectionRXingResultColumns@.len(),
            |c: int|
                match self.detectionRXingResultColumns@[c] {
                    Some(col) => Some(col.cells()),
                    None => None,
                },
        )
    }

    /// The columns as they stand.
    pub closed spec fn columns(&self) -> Seq<Option<DetectionRXingResultColumn>> {
        self.detectionRXingResultColumns@
    }

    /// The number of data columns.
    pub closed spec fn column_count(&self) -> int {
        self.barcodeColumnCount as int
    }

    pub closed spec fn metadata(&self) -> BarcodeMetadata {
        self.barcodeMetadata
    }

    pub closed spec fn bounding_box(&self) -> BoundingBox {
        self.boundingBox
    }

    /// The number of rows of the columns.
    pub open spec fn rows(&self) -> int {
        rows_of(self.cells(), self.cells().len() as int)
    }

    /// There are two columns more than data columns, and all detected
    /// columns have the same number of rows.
    pub open spec fn wf(&self) -> bool {
        &&& self.cells().len() == self.column_count() + 2
        &&& self.column_count() <= MAX_COLUMNS
        &&& self.rows() <= MAX_ROWS
        &&& uniform(self.cells(), self.rows())
    }

    /// Everything but the codewords is as in `other`.
    pub open spec fn same_frame(&self, other: &Self) -> bool {
        &&& self.column_count() == other.column_count()
        &&& self.metadata() == other.metadata()
        &&& self.bounding_box() == other.bounding_box()
        &&& same_shape(self.cells(), other.cells())
    }

    proof fn lemma_cells(&self)
        ensures
            self.cells().len() == self.detectionRXingResultColumns@.len(),
            forall|c: int|
                0 <= c < self.detectionRXingResultColumns@.len() ==> (
                #[trigger] self.cells()[c]) == (match self.detectionRXingResultColumns@[c] {
                    Some(col) => Some(col.cells()),
                    None => None,
                }),
    {
    }

    /// A result without detected columns.
    pub fn new(barcodeMetadata: BarcodeMetadata, boundingBox: BoundingBox) -> (r: Self)
        requires
            barcodeMetadata.column_count <= MAX_COLUMNS,
        ensures
            r.wf(),
            r.column_count() == barcodeMetadata.column_count,
            r.metadata() == barcodeMetadata,
            r.bounding_box() == boundingBox,
            forall|c: int| 0 <= c < r.cells().len() ==> (#[trigger] r.cells()[c]) is None,
    {
        let count = barcodeMetadata.getColumnCount() as usize;
        let mut columns: Vec<Option<DetectionRXingResultColumn>> = Vec::new();
        let mut i: usize = 0;
        while i < count + 2
            invariant
                i <= count + 2,
                count <= MAX_COLUMNS,
                columns.len() == i,
                forall|c: int| 0 <= c < i ==> (#[trigger] columns@[c]) is None,
            decreases count + 2 - i,
        {
            columns.push(None);
            i += 1;
        }
        let r = DetectionRXingResult {
            barcodeColumnCount: count,
            detectionRXingResultColumns: columns,
            barcodeMetadata,
            boundingBox,
        };
        proof {
            r.lemma_cells();
            lemma_rows_of_none(r.cells(), r.cells().len() as int);
        }
        r
    }

    /// Puts a column, or none, into its place.  A column must have as
    /// many rows as the columns that are there.
    pub fn setDetectionRXingResultColumn(
        &mut self,
        barcodeColumn: usize,
        detectionRXingResultColumn: Option<DetectionRXingResultColumn>,
    )
        requires
            old(self).wf(),
            barcodeColumn < old(self).cells().len(),
            detectionRXingResultColumn matches Some(col) ==> col.cells().len() <= MAX_ROWS && uniform(
                old(self).cells().update(barcodeColumn as int, None),
                col.cells().len() as int,
            ),
        ensures
            final(self).wf(),
            final(self).column_count() == old(self).column_count(),
            final(self).metadata() == old(self).metadata(),
            final(self).bounding_box() == old(self).bounding_box(),
            final(self).cells() == old(self).cells().update(
                barcodeColumn as int,
                cells_of(detectionRXingResultColumn),
            ),
    {
        proof {
            self.lemma_cells();
        }
        let ghost added: Option<Seq<Option<Codeword>>> = cells_of(detectionRXingResultColumn);
        self.detectionRXingResultColumns.set(barcodeColumn, detectionRXingResultColumn);
        proof {
            self.lemma_cells();
            let want = old(self).cells().update(barcodeColumn as int, added);
            assert(self.cells() =~= want);
            match added {
                Some(col) => {
                    assert(uniform(self.cells(), col.len() as int)) by {
                        let cleared = old(self).cells().update(barcodeColumn as int, None);
                        assert forall|c: int|
                            0 <= c < self.cells().len() && (#[trigger] self.cells()[c]) is Some implies self.cells()[c]->Some_0.len(
                        ) == col.len() by {
                            if c != barcodeColumn {
                                assert(cleared[c] is Some);
                            }
                        }
                    }
                    lemma_rows_of_uniform(self.cells(), col.len() as int, barcodeColumn as int);
                },
                None => {
                    lemma_rows_after_removal(old(self).cells(), barcodeColumn as int);
                    lemma_rows_never_grow(old(self).cells(), barcodeColumn as int);
                },
            }
        }
    }

    /// The codeword in row `r` of column `c`.
    fn codeword_at(&self, c: usize, r: usize) -> (v: Option<Codeword>)
        ensures
            v == cell(self.cells(), c as int, r as int),
    {
        proof {
            self.lemma_cells();
        }
        if c >= self.detectionRXingResultColumns.len() {
            return None;
        }
        match &self.detectionRXingResultColumns[c] {
            Some(col) => {
                if r < col.codewords.len() {
                    col.codewords[r]
                } else {
                    None
                }
            },
            None => None,
        }
    }

    /// Whether column `c` was detected.
    fn has_column(&self, c: usize) -> (v: bool)
        ensures
            v == (0 <= c < self.cells().len() && self.cells()[c as int] is Some),
    {
        proof {
            self.lemma_cells();
        }
        if c >= self.detectionRXingResultColumns.len() {
            return false;
        }
        self.detectionRXingResultColumns[c].is_some()
    }

    /// Puts a codeword, or none, into row `r` of column `c`.
    fn put(&mut self, c: usize, r: usize, v: Option<Codeword>)
        requires
            has_cell(old(self).cells(), c as int, r as int),
        ensures
            final(self).cells() == with_cell(old(self).cells(), c as int, r as int, v),
            final(self).same_frame(old(self)),
    {
        proof {
            self.lemma_cells();
        }
        let mut slot: Option<DetectionRXingResultColumn> = None;
        self.detectionRXingResultColumns.set_and_swap(c, &mut slot);
        let updated = match slot {
            Some(col) => {
                let mut col = col;
                col.codewords.set(r, v);
                Some(col)
            },
            None => None,
        };
        self.detectionRXingResultColumns.set(c, updated);
        proof {
            self.lemma_cells();
            assert(self.cells() =~= with_cell(old(self).cells(), c as int, r as int, v));
        }
    }

    /// The number of rows of the columns.
    fn row_count(&self) -> (n: usize)
        requires
            self.wf(),
        ensures
            n == self.rows(),
    {
        proof {
            self.lemma_cells();
        }
        let mut c = self.detectionRXingResultColumns.len();
        while c > 0
            invariant
                c <= self.detectionRXingResultColumns.len(),
                self.cells().len() == self.detectionRXingResultColumns@.len(),
                forall|i: int|
                    0 <= i < self.detectionRXingResultColumns@.len() ==> (
                    #[trigger] self.cells()[i]) == (match self.detectionRXingResultColumns@[i] {
                        Some(col) => Some(col.cells()),
                        None => None,
                    }),
                rows_of(self.cells(), self.cells().len() as int) == rows_of(self.cells(), c as int),
            decreases c,
        {
            match &self.detectionRXingResultColumns[c - 1] {
                Some(col) => {
                    assert(self.cells()[c - 1] == Some(col.cells()));
                    return col.codewords.len();
                },
                None => {
                    assert(self.cells()[c - 1] is None);
                },
            }
            c -= 1;
        }
        0
    }

    /// The columns after the row numbers have been adjusted: first the
    /// row indicator columns by themselves, then all columns pass by pass
    /// while each pass leaves fewer codewords without a valid row number.
    pub fn getDetectionRXingResultColumns(&mut self) -> (r: &Vec<Option<DetectionRXingResultColumn>>)
        requires
            old(self).wf(),
        ensures
            final(self).wf(),
            final(self).same_frame(old(self)),
            r@ == final(self).columns(),
            final(self).cells() == settled(
                with_indicator(
                    with_indicator(old(self).cells(), 0, old(self).metadata()),
                    old(self).column_count() + 1,
                    old(self).metadata(),
                ),
                old(self).column_count(),
                old(self).rows(),
                MAX_CODEWORDS_IN_BARCODE as int,
            ),
    {
        self.adjustIndicatorColumnRowNumbers(0);
        let pos = self.barcodeColumnCount + 1;
        self.adjustIndicatorColumnRowNumbers(pos);
        let ghost start = self.cells();
        let ghost count = self.column_count();
        let ghost rows = self.rows();
        let mut unadjustedCodewordCount = MAX_CODEWORDS_IN_BARCODE;
        let mut again = true;
        while again
            invariant
                self.wf(),
                self.same_frame(old(self)),
                count == self.column_count(),
                rows == self.rows(),
                again ==> settled(start, count, rows, MAX_CODEWORDS_IN_BARCODE as int) == settled(
                    self.cells(),
                    count,
                    rows,
                    unadjustedCodewordCount as int,
                ),
                !again ==> settled(start, count, rows, MAX_CODEWORDS_IN_BARCODE as int)
                    == self.cells(),
            decreases unadjustedCodewordCount + if again { 1int } else { 0int },
        {
            let previousUnadjustedCount = unadjustedCodewordCount;
            let unadjusted = self.adjustRowNumbers();
            if unadjusted > 0 && unadjusted < previousUnadjustedCount {
                unadjustedCodewordCount = unadjusted;
            } else {
                again = false;
            }
        }
        &self.detectionRXingResultColumns
    }

    /// Adjusts the column at `pos` as a row indicator column, if it was detected.
    fn adjustIndicatorColumnRowNumbers(&mut self, pos: usize)
        requires
            old(self).wf(),
            pos < old(self).cells().len(),
        ensures
            final(self).wf(),
            final(self).same_frame(old(self)),
            final(self).rows() == old(self).rows(),
            final(self).cells() == with_indicator(old(self).cells(), pos as int, old(self).metadata()),
    {
        proof {
            self.lemma_cells();
        }
        let mut slot: Option<DetectionRXingResultColumn> = None;
        self.detectionRXingResultColumns.set_and_swap(pos, &mut slot);
        let updated = match slot {
            Some(col) => {
                let mut col = col;
                col.adjustCompleteIndicatorColumnRowNumbers(&self.barcodeMetadata);
                Some(col)
            },
            None => None,
        };
        self.detectionRXingResultColumns.set(pos, updated);
        proof {
            self.lemma_cells();
            assert(self.cells() =~= with_indicator(
                old(self).cells(),
                pos as int,
                old(self).metadata(),
            ));
            lemma_rows_of_same_shape(old(self).cells(), self.cells(), self.cells().len() as int);
        }
    }

    /// One pass of the adjustment.  Returns the number of codewords that
    /// were counted as without a valid row number; the count tells when
    /// to stop, and a codeword may be counted more than once.
    fn adjustRowNumbers(&mut self) -> (unadjusted: u32)
        requires
            old(self).wf(),
        ensures
            final(self).wf(),
            final(self).same_frame(old(self)),
            final(self).rows() == old(self).rows(),
            final(self).cells() == one_pass(
                old(self).cells(),
                old(self).column_count(),
                old(self).rows(),
            ).cells,
            unadjusted == one_pass(
                old(self).cells(),
                old(self).column_count(),
                old(self).rows(),
            ).unadjusted,
    {
        let unadjustedCount = self.adjustRowNumbersByRow();
        if unadjustedCount == 0 {
            return 0;
        }
        let rows = self.row_count();
        let ghost start = self.cells();
        let count = self.barcodeColumnCount;
        let mut barcodeColumn: usize = 1;
        while barcodeColumn < count + 1
            invariant
                1 <= barcodeColumn <= count + 1,
                count == self.column_count(),
                count <= MAX_COLUMNS,
                rows == self.rows(),
                self.wf(),
                self.same_frame(old(self)),
                same_shape(self.cells(), start),
                self.cells() == columns_looked_around(start, barcodeColumn as int, rows as int),
            decreases count + 1 - barcodeColumn,
        {
            let ghost column_start = self.cells();
            if self.has_column(barcodeColumn) {
                let mut codewordsRow: usize = 0;
                while codewordsRow < rows
                    invariant
                        codewordsRow <= rows,
                        1 <= barcodeColumn < count + 1,
                        count == self.column_count(),
                        count <= MAX_COLUMNS,
                        rows == self.rows(),
                        self.wf(),
                        self.same_frame(old(self)),
                        same_shape(self.cells(), start),
                        same_shape(self.cells(), column_start),
                        self.cells() == column_looked_around(
                            column_start,
                            barcodeColumn as int,
                            codewordsRow as int,
                        ),
                    decreases rows - codewordsRow,
                {
                    match self.codeword_at(barcodeColumn, codewordsRow) {
                        Some(cw) => {
                            if !cw.hasValidRowNumber() {
                                self.adjustRowNumbersWithCodewords(barcodeColumn, codewordsRow);
                            }
                        },
                        None => {},
                    }
                    codewordsRow += 1;
                }
            } else {
                proof {
                    lemma_missing_column_looks_nowhere(column_start, barcodeColumn as int, rows as int);
                }
            }
            barcodeColumn += 1;
        }
        unadjustedCount
    }

    /// The adjustment by row.
    fn adjustRowNumbersByRow(&mut self) -> (unadjusted: u32)
        requires
            old(self).wf(),
        ensures
            final(self).wf(),
            final(self).same_frame(old(self)),
            final(self).rows() == old(self).rows(),
            final(self).cells() == by_row(
                old(self).cells(),
                old(self).column_count(),
                old(self).rows(),
            ).cells,
            unadjusted == by_row(
                old(self).cells(),
                old(self).column_count(),
                old(self).rows(),
            ).unadjusted,
    {
        self.adjustRowNumbersFromBothRI();
        let unadjustedCount = self.adjustRowNumbersFromLRI();
        unadjustedCount + self.adjustRowNumbersFromRRI()
    }

    /// Where both row indicators agree on the row number of a row, every
    /// codeword of the row takes that number, and is dropped if the
    /// number does not fit it.
    fn adjustRowNumbersFromBothRI(&mut self)
        requires
            old(self).wf(),
        ensures
            final(self).wf(),
            final(self).same_frame(old(self)),
            final(self).rows() == old(self).rows(),
            final(self).cells() == from_both(old(self).cells(), old(self).column_count()),
    {
        let count = self.barcodeColumnCount;
        let rows = self.row_count();
        let ghost start = self.cells();
        proof {
            self.lemma_cells();
        }
        if self.has_column(0) && self.has_column(count + 1) {
            let mut codewordsRow: usize = 0;
            while codewordsRow < rows
                invariant
                    codewordsRow <= rows,
                    count == self.column_count(),
                    count <= MAX_COLUMNS,
                    rows == rows_of(start, start.len() as int),
                    uniform(start, rows as int),
                    start.len() == count + 2,
                    start == old(self).cells(),
                    self.same_frame(old(self)),
                    same_shape(self.cells(), start),
                    forall|c: int, r: int|
                        has_cell(start, c, r) ==> #[trigger] cell(self.cells(), c, r) == if r
                            < codewordsRow {
                            cell_from_both(start, count as int, c, r)
                        } else {
                            cell(start, c, r)
                        },
                decreases rows - codewordsRow,
            {
                let left = self.codeword_at(0, codewordsRow);
                let right = self.codeword_at(count + 1, codewordsRow);
                let agree = match (left, right) {
                    (Some(l), Some(r)) => l.getRowNumber() == r.getRowNumber(),
                    _ => false,
                };
                proof {
                    assert(cell(self.cells(), 0, codewordsRow as int) == cell(
                        start,
                        0,
                        codewordsRow as int,
                    ));
                    assert(cell(self.cells(), count + 1, codewordsRow as int) == cell(
                        start,
                        count + 1,
                        codewordsRow as int,
                    ));
                    assert(agree == indicators_agree(start, count as int, codewordsRow as int));
                }
                if agree {
                    let new_row_number = match left {
                        Some(l) => l.getRowNumber(),
                        None => 0,
                    };
                    let mut barcodeColumn: usize = 1;
                    while barcodeColumn <= count
                        invariant
                            1 <= barcodeColumn <= count + 1,
                            codewordsRow < rows,
                            count == self.column_count(),
                            count <= MAX_COLUMNS,
                            rows == rows_of(start, start.len() as int),
                            uniform(start, rows as int),
                            start.len() == count + 2,
                            self.same_frame(old(self)),
                            same_shape(self.cells(), start),
                            indicators_agree(start, count as int, codewordsRow as int),
                            new_row_number == cell(start, 0, codewordsRow as int)->Some_0.row_number,
                            forall|c: int, r: int|
                                has_cell(start, c, r) ==> #[trigger] cell(self.cells(), c, r)
                                    == if r < codewordsRow || (r == codewordsRow && c < barcodeColumn) {
                                    cell_from_both(start, count as int, c, r)
                                } else {
                                    cell(start, c, r)
                                },
                        decreases count + 1 - barcodeColumn,
                    {
                        let ghost prev = self.cells();
                        match self.codeword_at(barcodeColumn, codewordsRow) {
                            Some(cw) => {
                                let mut codeword = cw;
                                codeword.setRowNumber(new_row_number);
                                if !codeword.hasValidRowNumber() {
                                    self.put(barcodeColumn, codewordsRow, None);
                                } else {
                                    self.put(barcodeColumn, codewordsRow, Some(codeword));
                                }
                            },
                            None => {},
                        }
                        proof {
                            assert forall|c: int, r: int| has_cell(start, c, r) implies #[trigger] cell(
                                self.cells(),
                                c,
                                r,
                            ) == if r < codewordsRow || (r == codewordsRow && c < barcodeColumn + 1) {
                                cell_from_both(start, count as int, c, r)
                            } else {
                                cell(start, c, r)
                            } by {
                                assert(cell(prev, c, r) == if r < codewordsRow || (r == codewordsRow
                                    && c < barcodeColumn) {
                                    cell_from_both(start, count as int, c, r)
                                } else {
                                    cell(start, c, r)
                                });
                            }
                        }
                        barcodeColumn += 1;
                    }
                }
                codewordsRow += 1;
            }
        }
        proof {
            let want = from_both(start, count as int);
            assert forall|c: int| 0 <= c < start.len() implies #[trigger] self.cells()[c]
                == want[c] by {
                if start[c] is Some {
                    assert forall|r: int| 0 <= r < start[c]->Some_0.len() implies self.cells()[c]->Some_0[r]
                        == want[c]->Some_0[r] by {
                        assert(has_cell(start, c, r));
                        assert(cell(self.cells(), c, r) == cell_from_both(start, count as int, c, r));
                    }
                    assert(self.cells()[c]->Some_0 =~= want[c]->Some_0);
                }
            }
            assert(self.cells() =~= want);
            lemma_rows_of_same_shape(start, self.cells(), start.len() as int);
        }
    }

    /// Holds the codewords of every row against the row number of the
    /// right row indicator, from the right to the left.
    fn adjustRowNumbersFromRRI(&mut self) -> (unadjusted: u32)
        requires
            old(self).wf(),
        ensures
            final(self).wf(),
            final(self).same_frame(old(self)),
            final(self).rows() == old(self).rows(),
            final(self).cells() == from_right(
                old(self).cells(),
                old(self).column_count(),
                old(self).rows(),
            ).cells,
            unadjusted == from_right(
                old(self).cells(),
                old(self).column_count(),
                old(self).rows(),
            ).unadjusted,
            unadjusted <= 0x4000_0000,
    {
        let count = self.barcodeColumnCount;
        let rows = self.row_count();
        let ghost start = self.cells();
        let mut unadjustedCount: u32 = 0;
        let mut codewordsRow: usize = 0;
        while codewordsRow < rows
            invariant
                codewordsRow <= rows <= MAX_ROWS,
                count == self.column_count(),
                count <= MAX_COLUMNS,
                start == old(self).cells(),
                self.same_frame(old(self)),
                same_shape(self.cells(), start),
                unadjustedCount <= codewordsRow * 0x1_0000,
                from_right(start, count as int, codewordsRow as int) == (Adjusted {
                    cells: self.cells(),
                    unadjusted: unadjustedCount as int,
                }),
            decreases rows - codewordsRow,
        {
            match self.codeword_at(count + 1, codewordsRow) {
                Some(indicator) => {
                    let rowIndicatorRowNumber = indicator.getRowNumber();
                    let ghost row_start = self.cells();
                    let mut invalidRowCounts: u32 = 0;
                    let mut rowCount: u32 = 0;
                    let mut barcodeColumn = count + 1;
                    while barcodeColumn > 0 && invalidRowCounts < ADJUST_ROW_NUMBER_SKIP
                        invariant
                            barcodeColumn <= count + 1,
                            count <= MAX_COLUMNS,
                            invalidRowCounts <= ADJUST_ROW_NUMBER_SKIP,
                            rowCount <= count + 1 - barcodeColumn,
                            self.same_frame(old(self)),
                            same_shape(self.cells(), start),
                            scan_left(
                                row_start,
                                codewordsRow as int,
                                rowIndicatorRowNumber,
                                count + 1,
                                0,
                                0,
                            ) == scan_left(
                                self.cells(),
                                codewordsRow as int,
                                rowIndicatorRowNumber,
                                barcodeColumn as int,
                                invalidRowCounts as int,
                                rowCount as int,
                            ),
                        decreases barcodeColumn,
                    {
                        match self.codeword_at(barcodeColumn, codewordsRow) {
                            Some(cw) => {
                                let mut codeword = Some(cw);
                                invalidRowCounts = Self::adjustRowNumberIfValid(
                                    rowIndicatorRowNumber,
                                    invalidRowCounts,
                                    &mut codeword,
                                );
                                self.put(barcodeColumn, codewordsRow, codeword);
                                match codeword {
                                    Some(checked) => {
                                        if !checked.hasValidRowNumber() {
                                            rowCount += 1;
                                        }
                                    },
                                    None => {},
                                }
                            },
                            None => {},
                        }
                        barcodeColumn -= 1;
                    }
                    unadjustedCount += rowCount;
                },
                None => {},
            }
            codewordsRow += 1;
        }
        proof {
            lemma_rows_of_same_shape(start, self.cells(), start.len() as int);
        }
        unadjustedCount
    }

    /// Holds the codewords of every row against the row number of the left
    /// row indicator, from the left to the right.
    fn adjustRowNumbersFromLRI(&mut self) -> (unadjusted: u32)
        requires
            old(self).wf(),
        ensures
            final(self).wf(),
            final(self).same_frame(old(self)),
            final(self).rows() == old(self).rows(),
            final(self).cells() == from_left(
                old(self).cells(),
                old(self).column_count(),
                old(self).rows(),
            ).cells,
            unadjusted == from_left(
                old(self).cells(),
                old(self).column_count(),
                old(self).rows(),
            ).unadjusted,
            unadjusted <= 0x4000_0000,
    {
        let count = self.barcodeColumnCount;
        let rows = self.row_count();
        let ghost start = self.cells();
        let mut unadjustedCount: u32 = 0;
        let mut codewordsRow: usize = 0;
        while codewordsRow < rows
            invariant
                codewordsRow <= rows <= MAX_ROWS,
                count == self.column_count(),
                count <= MAX_COLUMNS,
                start == old(self).cells(),
                self.same_frame(old(self)),
                same_shape(self.cells(), start),
                unadjustedCount <= codewordsRow * 0x1_0000,
                from_left(start, count as int, codewordsRow as int) == (Adjusted {
                    cells: self.cells(),
                    unadjusted: unadjustedCount as int,
                }),
            decreases rows - codewordsRow,
        {
            match self.codeword_at(0, codewordsRow) {
                Some(indicator) => {
                    let rowIndicatorRowNumber = indicator.getRowNumber();
                    let ghost row_start = self.cells();
                    let mut invalidRowCounts: u32 = 0;
                    let mut rowCount: u32 = 0;
                    let mut barcodeColumn: usize = 1;
                    while barcodeColumn < count + 1 && invalidRowCounts < ADJUST_ROW_NUMBER_SKIP
                        invariant
                            1 <= barcodeColumn <= count + 1,
                            count <= MAX_COLUMNS,
                            invalidRowCounts <= ADJUST_ROW_NUMBER_SKIP,
                            rowCount <= barcodeColumn - 1,
                            self.same_frame(old(self)),
                            same_shape(self.cells(), start),
                            scan_right(
                                row_start,
                                count as int,
                                codewordsRow as int,
                                rowIndicatorRowNumber,
                                1,
                                0,
                                0,
                            ) == scan_right(
                                self.cells(),
                                count as int,
                                codewordsRow as int,
                                rowIndicatorRowNumber,
                                barcodeColumn as int,
                                invalidRowCounts as int,
                                rowCount as int,
                            ),
                        decreases count + 1 - barcodeColumn,
                    {
                        match self.codeword_at(barcodeColumn, codewordsRow) {
                            Some(cw) => {
                                let mut codeword = Some(cw);
                                invalidRowCounts = Self::adjustRowNumberIfValid(
                                    rowIndicatorRowNumber,
                                    invalidRowCounts,
                                    &mut codeword,
                                );
                                self.put(barcodeColumn, codewordsRow, codeword);
                                match codeword {
                                    Some(checked) => {
                                        if !checked.hasValidRowNumber() {
                                            rowCount += 1;
                                        }
                                    },
                                    None => {},
                                }
                            },
                            None => {},
                        }
                        barcodeColumn += 1;
                    }
                    unadjustedCount += rowCount;
                },
                None => {},
            }
            codewordsRow += 1;
        }
        proof {
            lemma_rows_of_same_shape(start, self.cells(), start.len() as int);
        }
        unadjustedCount
    }

    /// Holds a codeword against the row number of its row indicator: a
    /// codeword without a valid row number takes the number if it fits,
    /// and is counted if it does not.
    fn adjustRowNumberIfValid(
        rowIndicatorRowNumber: i32,
        invalidRowCounts: u32,
        codeword: &mut Option<Codeword>,
    ) -> (r: u32)
        requires
            invalidRowCounts < u32::MAX,
        ensures
            match *old(codeword) {
                Some(cw) => *final(codeword) == Some(checked_against(cw, rowIndicatorRowNumber))
                    && r == invalid_after(cw, rowIndicatorRowNumber, invalidRowCounts as int),
                None => *final(codeword) == *old(codeword) && r == invalidRowCounts,
            },
    {
        match *codeword {
            Some(cw) => {
                let mut counts = invalidRowCounts;
                if !cw.hasValidRowNumber() {
                    if cw.isValidRowNumber(rowIndicatorRowNumber) {
                        let mut adjusted = cw;
                        adjusted.setRowNumber(rowIndicatorRowNumber);
                        *codeword = Some(adjusted);
                        counts = 0;
                    } else {
                        counts += 1;
                    }
                }
                counts
            },
            None => invalidRowCounts,
        }
    }

    /// Gives the codeword in row `codewordsRow` of column `barcodeColumn`
    /// the row number of the first of its neighbors that has a valid row
    /// number and the same bucket.
    fn adjustRowNumbersWithCodewords(&mut self, barcodeColumn: usize, codewordsRow: usize)
        requires
            old(self).wf(),
            1 <= barcodeColumn <= old(self).column_count(),
            cell(old(self).cells(), barcodeColumn as int, codewordsRow as int) is Some,
        ensures
            final(self).wf(),
            final(self).same_frame(old(self)),
            final(self).rows() == old(self).rows(),
            final(self).cells() == with_cell(
                old(self).cells(),
                barcodeColumn as int,
                codewordsRow as int,
                Some(
                    from_neighbors(
                        cell(old(self).cells(), barcodeColumn as int, codewordsRow as int)->Some_0,
                        old(self).cells(),
                        barcodeColumn as int,
                        codewordsRow as int,
                        0,
                    ),
                ),
            ),
    {
        let ghost g = self.cells();
        let ghost c = barcodeColumn as int;
        let ghost r = codewordsRow as int;
        let mut codeword = match self.codeword_at(barcodeColumn, codewordsRow) {
            Some(cw) => cw,
            None => {
                return ;
            },
        };
        let ghost first = codeword;
        let before = barcodeColumn - 1;
        let after = if self.has_column(barcodeColumn + 1) {
            barcodeColumn + 1
        } else {
            before
        };
        let mut k: usize = 0;
        let mut done = false;
        while k < 14 && !done
            invariant
                k <= 14,
                g == self.cells(),
                c == barcodeColumn,
                r == codewordsRow,
                1 <= barcodeColumn <= MAX_COLUMNS,
                codewordsRow < MAX_ROWS,
                before == barcodeColumn - 1,
                after == next_column(g, c),
                !done ==> from_neighbors(first, g, c, r, 0) == from_neighbors(codeword, g, c, r, k as int)
                    && codeword == first,
                done ==> codeword == from_neighbors(first, g, c, r, 0),
            decreases 14 - k + if done { 0int } else { 1int },
        {
            let other = self.neighbor_at(barcodeColumn, codewordsRow, before, after, k);
            if Self::adjustRowNumber(&mut codeword, &other) {
                done = true;
            } else {
                k += 1;
            }
        }
        self.put(barcodeColumn, codewordsRow, Some(codeword));
        proof {
            lemma_rows_of_same_shape(g, self.cells(), g.len() as int);
        }
    }

    /// The `k`-th neighbor of a codeword.
    fn neighbor_at(&self, c: usize, r: usize, before: usize, after: usize, k: usize) -> (v: Option<
        Codeword,
    >)
        requires
            1 <= c <= MAX_COLUMNS,
            r < MAX_ROWS,
            before == c - 1,
            after == next_column(self.cells(), c as int),
            k < 14,
        ensures
            v == neighbor(self.cells(), c as int, r as int, k as int),
    {
        if k == 0 {
            if r >= 1 {
                self.codeword_at(c, r - 1)
            } else {
                None
            }
        } else if k == 1 {
            self.codeword_at(c, r + 1)
        } else if k == 2 {
            self.codeword_at(before, r)
        } else if k == 3 {
            self.codeword_at(after, r)
        } else if k == 4 {
            if r >= 1 {
                self.codeword_at(before, r - 1)
            } else {
                None
            }
        } else if k == 5 {
            if r >= 1 {
                self.codeword_at(after, r - 1)
            } else {
                None
            }
        } else if k == 6 {
            self.codeword_at(before, r + 1)
        } else if k == 7 {
            self.codeword_at(after, r + 1)
        } else if k == 8 {
            if r >= 2 {
                self.codeword_at(c, r - 2)
            } else {
                None
            }
        } else if k == 9 {
            self.codeword_at(c, r + 2)
        } else if k == 10 {
            if r >= 2 {
                self.codeword_at(before, r - 2)
            } else {
                None
            }
        } else if k == 11 {
            if r >= 2 {
                self.codeword_at(after, r - 2)
            } else {
                None
            }
        } else if k == 12 {
            self.codeword_at(before, r + 2)
        } else {
            self.codeword_at(after, r + 2)
        }
    }

    /// Gives `codeword` the row number of `otherCodeword` if that one has
    /// a valid row number and the same bucket.  Returns whether it did.
    fn adjustRowNumber(codeword: &mut Codeword, otherCodeword: &Option<Codeword>) -> (r: bool)
        ensures
            r == can_take_row_of(*old(codeword), *otherCodeword),
            *final(codeword) == with_row_of(*old(codeword), *otherCodeword),
    {
        match otherCodeword {
            Some(other) => {
                if other.hasValidRowNumber() && other.getBucket() == codeword.getBucket() {
                    codeword.setRowNumber(other.getRowNumber());
                    true
                } else {
                    false
                }
            },
            None => false,
        }
    }

    pub fn getBarcodeColumnCount(&self) -> (r: usize)
        ensures
            r == self.column_count(),
    {
        self.barcodeColumnCount
    }

    pub fn getBarcodeRowCount(&self) -> (r: u32)
        ensures
            r == self.metadata().row_count,
    {
        self.barcodeMetadata.getRowCount()
    }

    pub fn getBarcodeECLevel(&self) -> (r: u32)
        ensures
            r == self.metadata().error_correction_level,
    {
        self.barcodeMetadata.getErrorCorrectionLevel()
    }

    pub fn getBoundingBox(&self) -> (r: &BoundingBox)
        ensures
            *r == self.bounding_box(),
    {
        &self.boundingBox
    }

    pub fn getDetectionRXingResultColumn(&self, barcodeColumn: usize) -> (r: &Option<
        DetectionRXingResultColumn,
    >)
        requires
            barcodeColumn < self.cells().len(),
        ensures
            *r == self.columns()[barcodeColumn as int],
    {
        proof {
            self.lemma_cells();
        }
        &self.detectionRXingResultColumns[barcodeColumn]
    }
}

/// Cells without a detected column have no rows.
pub proof fn lemma_rows_of_none(g: Cells, upto: int)
    requires
        0 <= upto <= g.len(),
        forall|c: int| 0 <= c < g.len() ==> (#[trigger] g[c]) is None,
    ensures
        rows_of(g, upto) == 0,
        uniform(g, 0),
    decreases upto,
{
    if upto > 0 {
        lemma_rows_of_none(g, upto - 1);
    }
}

/// Cells whose detected columns all have `rows` rows, one of them being
/// column `c`, have `rows` rows.
pub proof fn lemma_rows_of_uniform(g: Cells, rows: int, c: int)
    requires
        uniform(g, rows),
        0 <= c < g.len(),
        g[c] is Some,
    ensures
        rows_of(g, g.len() as int) == rows,
{
    lemma_rows_of_found(g, rows, c, g.len() as int);
}

pub proof fn lemma_rows_of_found(g: Cells, rows: int, c: int, upto: int)
    requires
        uniform(g, rows),
        0 <= c < upto <= g.len(),
        g[c] is Some,
    ensures
        rows_of(g, upto) == rows,
    decreases upto,
{
    if g[upto - 1] is None {
        lemma_rows_of_found(g, rows, c, upto - 1);
    }
}

/// Taking a column away leaves uniform cells uniform.
pub proof fn lemma_rows_after_removal(g: Cells, c: int)
    requires
        0 <= c < g.len(),
        uniform(g, rows_of(g, g.len() as int)),
    ensures
        uniform(g.update(c, None), rows_of(g.update(c, None), g.len() as int)),
{
    let h = g.update(c, None);
    let rows = rows_of(g, g.len() as int);
    assert(uniform(h, rows)) by {
        assert forall|i: int| 0 <= i < h.len() && (#[trigger] h[i]) is Some implies h[i]->Some_0.len()
            == rows by {
            assert(g[i] is Some);
        }
    }
    if exists|i: int| 0 <= i < h.len() && (#[trigger] h[i]) is Some {
        let i = choose|i: int| 0 <= i < h.len() && (#[trigger] h[i]) is Some;
        lemma_rows_of_uniform(h, rows, i);
    } else {
        lemma_rows_of_none(h, h.len() as int);
    }
}

/// Taking a column away does not add rows.
pub proof fn lemma_rows_never_grow(g: Cells, c: int)
    requires
        0 <= c < g.len(),
        uniform(g, rows_of(g, g.len() as int)),
    ensures
        rows_of(g.update(c, None), g.len() as int) <= rows_of(g, g.len() as int),
        0 <= rows_of(g, g.len() as int),
{
    let h = g.update(c, None);
    lemma_rows_of_nonnegative(g, g.len() as int);
    if exists|i: int| 0 <= i < h.len() && (#[trigger] h[i]) is Some {
        let i = choose|i: int| 0 <= i < h.len() && (#[trigger] h[i]) is Some;
        assert(g[i] is Some);
        assert(uniform(h, rows_of(g, g.len() as int))) by {
            assert forall|j: int| 0 <= j < h.len() && (#[trigger] h[j]) is Some implies h[j]->Some_0.len()
                == rows_of(g, g.len() as int) by {
                assert(g[j] is Some);
            }
        }
        lemma_rows_of_uniform(h, rows_of(g, g.len() as int), i);
    } else {
        lemma_rows_of_none(h, h.len() as int);
    }
}

pub proof fn lemma_rows_of_nonnegative(g: Cells, upto: int)
    ensures
        0 <= rows_of(g, upto),
    decreases upto,
{
    if upto > 0 {
        lemma_rows_of_nonnegative(g, upto - 1);
    }
}

/// Cells of the same shape have the same number of rows.
pub proof fn lemma_rows_of_same_shape(a: Cells, b: Cells, upto: int)
    requires
        same_shape(a, b),
        0 <= upto <= a.len(),
    ensures
        rows_of(a, upto) == rows_of(b, upto),
        upto == a.len() && uniform(a, rows_of(a, upto)) ==> uniform(b, rows_of(b, upto)),
    decreases upto,
{
    if upto > 0 {
        lemma_rows_of_same_shape(a, b, upto - 1);
        assert(a[upto - 1] is Some <==> b[upto - 1] is Some);
    }
    if upto == a.len() && uniform(a, rows_of(a, upto)) {
        assert forall|c: int| 0 <= c < b.len() && (#[trigger] b[c]) is Some implies b[c]->Some_0.len()
            == rows_of(b, upto) by {
            assert(a[c] is Some);
        }
    }
}

/// In a column that was not detected no codeword looks around.
pub proof fn lemma_missing_column_looks_nowhere(g: Cells, c: int, rows: int)
    requires
        !(0 <= c < g.len() && g[c] is Some),
        0 <= rows,
    ensures
        column_looked_around(g, c, rows) == g,
    decreases rows,
{
    if rows > 0 {
        lemma_missing_column_looks_nowhere(g, c, rows - 1);
    }
}

} // verus!
