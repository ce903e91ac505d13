use rxing::common::DecoderRXingResult;

#[test]
fn plain_result() {
    let r = DecoderRXingResult::new(
        vec![1, 2, 3],
        "abc".to_string(),
        vec![9],
        "H".to_string(),
    );
    assert_eq!(r.getRawBytes(), &vec![1, 2, 3]);
    assert_eq!(r.getNumBits(), 3);
    assert_eq!(r.getText(), "abc");
    assert_eq!(r.getByteSegments(), &vec![9]);
    assert_eq!(r.getECLevel(), "H");
    assert_eq!(r.getErrorsCorrected(), 0);
    assert_eq!(r.getErasures(), 0);
    assert!(!r.hasStructuredAppend());
    assert_eq!(r.getStructuredAppendParity(), -2);
    assert_eq!(r.getStructuredAppendSequenceNumber(), -2);
    assert_eq!(r.getSymbologyModifier(), 0);
}

#[test]
fn result_with_symbology_modifier() {
    let r = DecoderRXingResult::with_symbology(vec![], String::new(), vec![], String::new(), 4);
    assert_eq!(r.getSymbologyModifier(), 4);
    assert_eq!(r.getStructuredAppendParity(), -1);
    assert_eq!(r.getStructuredAppendSequenceNumber(), -1);
    assert!(!r.hasStructuredAppend());
    assert_eq!(r.getNumBits(), 0);
}

#[test]
fn result_with_structured_append() {
    let r = DecoderRXingResult::with_sa(vec![7], String::new(), vec![], String::new(), 2, 5);
    assert!(r.hasStructuredAppend());
    assert_eq!(r.getStructuredAppendSequenceNumber(), 2);
    assert_eq!(r.getStructuredAppendParity(), 5);
    let half = DecoderRXingResult::with_sa(vec![7], String::new(), vec![], String::new(), -1, 5);
    assert!(!half.hasStructuredAppend());
}

#[test]
fn result_counts_can_be_set() {
    let mut r = DecoderRXingResult::with_all(
        vec![1, 2],
        "t".to_string(),
        vec![],
        "L".to_string(),
        0,
        0,
        1,
    );
    assert!(r.hasStructuredAppend());
    r.setNumBits(13);
    r.setErrorsCorrected(3);
    r.setErasures(4);
    assert_eq!(r.getNumBits(), 13);
    assert_eq!(r.getErrorsCorrected(), 3);
    assert_eq!(r.getErasures(), 4);
    assert_eq!(r.getRawBytes(), &vec![1, 2]);
    assert_eq!(r.getText(), "t");
}
