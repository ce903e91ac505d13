//! A codeword of a PDF417 symbol, and what is known of the symbol.

use vstd::prelude::*;

verus! {

/// The row number of a codeword whose row is not known.
pub const BARCODE_ROW_UNKNOWN: i32 = -1;

/// The remainder of a division by three that rounds towards zero.
pub open spec fn remainder_of_three(n: int) -> int {
    if n >= 0 {
        n % 3
    } else {
        -((-n) % 3)
    }
}

/// Whether `row_number` is known and fits a codeword of the given bucket:
/// the bucket is three times the row number modulo three.
pub open spec fn row_fits_bucket(bucket: u32, row_number: i32) -> bool {
    row_number != BARCODE_ROW_UNKNOWN && bucket == remainder_of_three(row_number as int) * 3
}

/// One codeword: where it was found, its bucket and value, and the
/// number of the barcode row it belongs to, which may be unknown or wrong.
#[derive(Debug, Clone, Copy, PartialEq, Eq, Structural)]
pub struct Codeword {
    pub start_x: u32,
    pub end_x: u32,
    pub bucket: u32,
    pub value: u32,
    pub row_number: i32,
}

impl Codeword {
    /// The codeword with another row number.
    pub open spec fn with_row(self, row_number: i32) -> Codeword {
        Codeword { row_number, ..self }
    }

    /// Whether the row number of the codeword is known and fits its bucket.
    pub open spec fn valid(self) -> bool {
        row_fits_bucket(self.bucket, self.row_number)
    }

    /// The row number of a codeword of a row indicator column, which
    /// follows from its value and bucket.
    pub open spec fn indicator_row(self) -> i32 {
        ((self.value / 30) * 3 + self.bucket / 3) as i32
    }

    /// A codeword whose row is not known yet.
    pub fn new(start_x: u32, end_x: u32, bucket: u32, value: u32) -> (r: Self)
        ensures
            r == (Codeword { start_x, end_x, bucket, value, row_number: BARCODE_ROW_UNKNOWN }),
    {
        Codeword { start_x, end_x, bucket, value, row_number: BARCODE_ROW_UNKNOWN }
    }

    pub fn hasValidRowNumber(&self) -> (r: bool)
        ensures
            r == self.valid(),
    {
        self.isValidRowNumber(self.row_number)
    }

    pub fn isValidRowNumber(&self, row_number: i32) -> (r: bool)
        ensures
            r == row_fits_bucket(self.bucket, row_number),
    {
        if row_number == BARCODE_ROW_UNKNOWN {
            return false;
        }
        let remainder: i64 = if row_number >= 0 {
            (row_number % 3) as i64
        } else {
            -((-(row_number as i64)) % 3)
        };
        self.bucket as i64 == remainder * 3
    }

    pub fn setRowNumberAsRowIndicatorColumn(&mut self)
        ensures
            *final(self) == old(self).with_row(old(self).indicator_row()),
    {
        self.row_number = ((self.value / 30) * 3 + self.bucket / 3) as i32;
    }

    pub fn getWidth(&self) -> (r: u32)
        requires
            self.start_x <= self.end_x,
        ensures
            r == self.end_x - self.start_x,
    {
        self.end_x - self.start_x
    }

    pub fn getStartX(&self) -> (r: u32)
        ensures
            r == self.start_x,
    {
        self.start_x
    }

    pub fn getEndX(&self) -> (r: u32)
        ensures
            r == self.end_x,
    {
        self.end_x
    }

    pub fn getBucket(&self) -> (r: u32)
        ensures
            r == self.bucket,
    {
        self.bucket
    }

    pub fn getValue(&self) -> (r: u32)
        ensures
            r == self.value,
    {
        self.value
    }

    pub fn getRowNumber(&self) -> (r: i32)
        ensures
            r == self.row_number,
    {
        self.row_number
    }

    pub fn setRowNumber(&mut self, row_number: i32)
        ensures
            *final(self) == old(self).with_row(row_number),
    {
        self.row_number = row_number;
    }
}

/// What the row indicators tell of a symbol.
#[derive(Debug, Clone, Copy, PartialEq, Eq, Structural)]
pub struct BarcodeMetadata {
    pub column_count: u32,
    pub error_correction_level: u32,
    pub row_count_upper_part: u32,
    pub row_count_lower_part: u32,
    pub row_count: u32,
}

impl BarcodeMetadata {
    pub fn new(
        column_count: u32,
        row_count_upper_part: u32,
        row_count_lower_part: u32,
        error_correction_level: u32,
    ) -> (r: Self)
        requires
            row_count_upper_part + row_count_lower_part <= u32::MAX,
        ensures
            r == (BarcodeMetadata {
                column_count,
                error_correction_level,
                row_count_upper_part,
                row_count_lower_part,
                row_count: (row_count_upper_part + row_count_lower_part) as u32,
            }),
    {
        BarcodeMetadata {
            column_count,
            error_correction_level,
            row_count_upper_part,
            row_count_lower_part,
            row_count: row_count_upper_part + row_count_lower_part,
        }
    }

    pub fn getColumnCount(&self) -> (r: u32)
        ensures
            r == self.column_count,
    {
        self.column_count
    }

    pub fn getErrorCorrectionLevel(&self) -> (r: u32)
        ensures
            r == self.error_correction_level,
    {
        self.error_correction_level
    }

    pub fn getRowCount(&self) -> (r: u32)
        ensures
            r == self.row_count,
    {
        self.row_count
    }

    pub fn getRowCountUpperPart(&self) -> (r: u32)
        ensures
            r == self.row_count_upper_part,
    {
        self.row_count_upper_part
    }

    pub fn getRowCountLowerPart(&self) -> (r: u32)
        ensures
            r == self.row_count_lower_part,
    {
        self.row_count_lower_part
    }
}

/// The part of the image that a symbol or a column of it takes.
#[derive(Debug, Clone, Copy, PartialEq, Eq, Structural)]
pub struct BoundingBox {
    pub min_x: u32,
    pub max_x: u32,
    pub min_y: u32,
    pub max_y: u32,
}

} // verus!
