use rxing::pdf417::decoder::{
    BarcodeMetadata, BoundingBox, Codeword, DetectionRXingResult, DetectionRXingResultColumn,
};

fn frame() -> BoundingBox {
    BoundingBox { min_x: 0, max_x: 100, min_y: 0, max_y: 3 }
}

fn codeword(bucket: u32, value: u32, row_number: i32) -> Option<Codeword> {
    let mut cw = Codeword::new(0, 10, bucket, value);
    cw.setRowNumber(row_number);
    Some(cw)
}

fn column(cells: Vec<Option<Codeword>>) -> Option<DetectionRXingResultColumn> {
    Some(DetectionRXingResultColumn::new(frame(), cells))
}

fn rows_of(result: &DetectionRXingResult, c: usize) -> Vec<Option<i32>> {
    match result.getDetectionRXingResultColumn(c) {
        Some(col) => col
            .getCodewords()
            .iter()
            .map(|cw| cw.map(|cw| cw.getRowNumber()))
            .collect(),
        None => vec![],
    }
}

#[test]
fn row_number_must_fit_the_bucket() {
    let mut cw = Codeword::new(3, 17, 6, 100);
    assert_eq!(cw.getRowNumber(), -1);
    assert_eq!(cw.getWidth(), 14);
    assert_eq!(cw.getStartX(), 3);
    assert_eq!(cw.getEndX(), 17);
    assert_eq!(cw.getBucket(), 6);
    assert_eq!(cw.getValue(), 100);
    assert!(!cw.hasValidRowNumber());
    assert!(cw.isValidRowNumber(2));
    assert!(cw.isValidRowNumber(5));
    assert!(!cw.isValidRowNumber(3));
    assert!(!cw.isValidRowNumber(-1));
    cw.setRowNumber(8);
    assert!(cw.hasValidRowNumber());
    let zero = Codeword::new(0, 1, 0, 0);
    assert!(zero.isValidRowNumber(0));
    assert!(zero.isValidRowNumber(-3));
    assert!(!zero.isValidRowNumber(-1));
}

#[test]
fn row_number_of_a_row_indicator() {
    let mut cw = Codeword::new(0, 1, 6, 95);
    cw.setRowNumberAsRowIndicatorColumn();
    // (95 / 30) * 3 + 6 / 3
    assert_eq!(cw.getRowNumber(), 11);
    assert!(cw.hasValidRowNumber());
}

#[test]
fn metadata_adds_the_row_counts() {
    let metadata = BarcodeMetadata::new(3, 10, 2, 4);
    assert_eq!(metadata.getColumnCount(), 3);
    assert_eq!(metadata.getRowCount(), 12);
    assert_eq!(metadata.getRowCountUpperPart(), 10);
    assert_eq!(metadata.getRowCountLowerPart(), 2);
    assert_eq!(metadata.getErrorCorrectionLevel(), 4);
}

#[test]
fn new_result_has_no_columns() {
    let mut result = DetectionRXingResult::new(BarcodeMetadata::new(2, 5, 1, 3), frame());
    assert_eq!(result.getBarcodeColumnCount(), 2);
    assert_eq!(result.getBarcodeRowCount(), 6);
    assert_eq!(result.getBarcodeECLevel(), 3);
    assert_eq!(result.getBoundingBox(), &frame());
    for c in 0..4 {
        assert!(result.getDetectionRXingResultColumn(c).is_none());
    }
    assert_eq!(result.getDetectionRXingResultColumns().len(), 4);
}

#[test]
fn indicator_columns_get_their_row_numbers() {
    let mut result = DetectionRXingResult::new(BarcodeMetadata::new(1, 5, 1, 3), frame());
    // values 0, 30, 61 in the buckets 0, 3, 6: rows 0, 4, 8; the last one
    // lies beyond the six rows of the symbol
    result.setDetectionRXingResultColumn(
        0,
        column(vec![codeword(0, 0, -1), codeword(3, 30, -1), codeword(6, 61, -1), None]),
    );
    result.getDetectionRXingResultColumns();
    assert_eq!(rows_of(&result, 0), vec![Some(0), Some(4), None, None]);
}

#[test]
fn both_indicators_set_the_rows_they_agree_on() {
    let mut result = DetectionRXingResult::new(BarcodeMetadata::new(2, 5, 1, 3), frame());
    result.setDetectionRXingResultColumn(
        0,
        column(vec![codeword(0, 0, -1), codeword(3, 6, -1), codeword(6, 9, -1)]),
    );
    result.setDetectionRXingResultColumn(
        1,
        column(vec![codeword(0, 500, -1), codeword(0, 501, -1), codeword(6, 502, 7)]),
    );
    result.setDetectionRXingResultColumn(2, column(vec![None, codeword(3, 600, -1), None]));
    result.setDetectionRXingResultColumn(
        3,
        column(vec![codeword(0, 0, -1), codeword(3, 6, -1), codeword(6, 39, -1)]),
    );
    result.getDetectionRXingResultColumns();
    // the indicators say rows 0, 1 and 2 on the left, 0, 1 and 5 on the right
    assert_eq!(rows_of(&result, 0), vec![Some(0), Some(1), Some(2)]);
    assert_eq!(rows_of(&result, 3), vec![Some(0), Some(1), Some(5)]);
    // row 0: bucket 0 fits row 0.  Row 1: bucket 0 does not fit row 1, the
    // codeword is dropped.  Row 2: the indicators disagree; the codeword
    // keeps its row 7, which does not fit bucket 6, and takes row 2 from
    // the left indicator.
    assert_eq!(rows_of(&result, 1), vec![Some(0), None, Some(2)]);
    assert_eq!(rows_of(&result, 2), vec![None, Some(1), None]);
}

#[test]
fn a_row_is_given_up_after_two_codewords_that_do_not_fit() {
    let mut result = DetectionRXingResult::new(BarcodeMetadata::new(4, 5, 1, 3), frame());
    result.setDetectionRXingResultColumn(0, column(vec![codeword(0, 0, -1)]));
    result.setDetectionRXingResultColumn(1, column(vec![codeword(3, 1, -1)]));
    result.setDetectionRXingResultColumn(2, column(vec![codeword(3, 2, -1)]));
    result.setDetectionRXingResultColumn(3, column(vec![codeword(0, 3, -1)]));
    result.setDetectionRXingResultColumn(4, column(vec![codeword(0, 4, -1)]));
    result.getDetectionRXingResultColumns();
    assert_eq!(rows_of(&result, 0), vec![Some(0)]);
    assert_eq!(rows_of(&result, 1), vec![Some(-1)]);
    assert_eq!(rows_of(&result, 2), vec![Some(-1)]);
    // the scan from the left stopped before column 3; no neighbor has a
    // valid row number and the bucket of these codewords but they themselves
    assert_eq!(rows_of(&result, 3), vec![Some(-1)]);
    assert_eq!(rows_of(&result, 4), vec![Some(-1)]);
}

#[test]
fn a_codeword_takes_the_row_of_a_neighbor() {
    let mut result = DetectionRXingResult::new(BarcodeMetadata::new(2, 5, 1, 3), frame());
    result.setDetectionRXingResultColumn(
        1,
        column(vec![codeword(3, 10, 4), codeword(3, 11, -1), codeword(6, 12, -1)]),
    );
    result.setDetectionRXingResultColumn(
        2,
        column(vec![codeword(0, 20, -1), codeword(6, 21, 5), codeword(0, 22, 3)]),
    );
    result.getDetectionRXingResultColumns();
    // without row indicators nothing is counted as unadjusted, and the
    // neighbors are not looked at
    assert_eq!(rows_of(&result, 1), vec![Some(4), Some(-1), Some(-1)]);
    assert_eq!(rows_of(&result, 2), vec![Some(-1), Some(5), Some(3)]);
}

#[test]
fn neighbors_are_looked_at_when_a_row_indicator_leaves_codewords_unadjusted() {
    let mut result = DetectionRXingResult::new(BarcodeMetadata::new(2, 5, 1, 3), frame());
    result.setDetectionRXingResultColumn(
        0,
        column(vec![codeword(0, 0, -1), None, None]),
    );
    result.setDetectionRXingResultColumn(
        1,
        column(vec![codeword(3, 10, -1), codeword(3, 11, 4), codeword(6, 12, -1)]),
    );
    result.setDetectionRXingResultColumn(
        2,
        column(vec![codeword(3, 20, -1), codeword(6, 21, 5), codeword(0, 22, 3)]),
    );
    result.getDetectionRXingResultColumns();
    // row 0 of column 1 does not fit row 0; it takes row 4 from the
    // codeword below it.  Row 2 of column 1 takes row 5 from the codeword
    // above it in the next column.  Row 0 of column 2 takes row 4 from the
    // column before it.
    assert_eq!(rows_of(&result, 1), vec![Some(4), Some(4), Some(5)]);
    assert_eq!(rows_of(&result, 2), vec![Some(4), Some(5), Some(3)]);
}

#[test]
fn column_cells_can_be_set() {
    let mut col = DetectionRXingResultColumn::new(frame(), vec![None, None]);
    col.setCodeword(1, codeword(3, 7, 1));
    assert_eq!(col.getCodewords()[0], None);
    assert_eq!(col.getCodewords()[1], codeword(3, 7, 1));
    assert_eq!(col.getBoundingBox(), &frame());
}
