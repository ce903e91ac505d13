//! The codewords detected in a PDF417 symbol and their row numbers.

pub mod codeword;
pub mod detection_result;

pub use codeword::{BarcodeMetadata, BoundingBox, Codeword};
pub use detection_result::{DetectionRXingResult, DetectionRXingResultColumn};
