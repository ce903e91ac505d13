//! Parts of the PDF417 decoder.

pub mod decoder;
