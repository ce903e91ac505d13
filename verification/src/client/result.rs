//! Parsers that recognize what the text of a barcode stands for.

pub mod vin_result_parser;

pub use vin_result_parser::{BarcodeFormat, VINParsedRXingResult};
