//! Core building blocks of a 2D barcode decoder: bit buffers, binarizers,
//! grid sampling and ECI-aware character assembly.

pub mod client;
pub mod common;
pub mod exceptions;
pub mod pdf417;

pub use exceptions::Exceptions;
