//! Components shared by all barcode formats.

pub mod bit_array;
pub mod bit_matrix;
pub mod bit_source;
pub mod bit_source_builder;
pub mod bits;
pub mod character_set_eci;
pub mod charset_codec;
pub mod decoder_result;
pub mod eager_eci_string_builder;
pub mod eci_encoder_set;
pub mod eci_string_builder;
pub mod global_histogram_binarizer;
pub mod grid_sampler;
pub mod hybrid_binarizer;
pub mod minimal_eci_input;
pub mod string_utils;

pub use bit_array::BitArray;
pub use bit_matrix::BitMatrix;
pub use bit_source::BitSource;
pub use bit_source_builder::BitSourceBuilder;
pub use character_set_eci::CharacterSetECI;
pub use decoder_result::DecoderRXingResult;
pub use eager_eci_string_builder::ECIStringBuilder;
pub use eci_encoder_set::ECIEncoderSet;
pub use global_histogram_binarizer::GlobalHistogramBinarizer;
pub use grid_sampler::DefaultGridSampler;
pub use hybrid_binarizer::HybridBinarizer;
pub use minimal_eci_input::{ECIInput, MinimalECIInput};
pub use string_utils::StringUtils;
