//! What clients make of the text of a barcode.

pub mod result;
