//! The result of decoding a matrix of bits.

use vstd::prelude::*;

verus! {

/// Encapsulates the result of decoding a matrix of bits.  This typically
/// applies to 2D barcode formats.  It holds the raw bytes obtained, as
/// well as a string interpretation of those bytes, if applicable.
pub struct DecoderRXingResult {
    rawBytes: Vec<u8>,
    numBits: usize,
    text: String,
    byteSegments: Vec<u8>,
    ecLevel: String,
    errorsCorrected: u64,
    erasures: u64,
    structuredAppendParity: i32,
    structuredAppendSequenceNumber: i32,
    symbologyModifier: u32,
}

impl DecoderRXingResult {
    pub closed spec fn raw_bytes(&self) -> Seq<u8> {
        self.rawBytes@
    }

    pub closed spec fn num_bits(&self) -> nat {
        self.numBits as nat
    }

    pub closed spec fn text(&self) -> Seq<char> {
        self.text@
    }

    pub closed spec fn byte_segments(&self) -> Seq<u8> {
        self.byteSegments@
    }

    pub closed spec fn ec_level(&self) -> Seq<char> {
        self.ecLevel@
    }

    pub closed spec fn errors_corrected(&self) -> u64 {
        self.errorsCorrected
    }

    pub closed spec fn erasures(&self) -> u64 {
        self.erasures
    }

    pub closed spec fn parity(&self) -> i32 {
        self.structuredAppendParity
    }

    pub closed spec fn sequence_number(&self) -> i32 {
        self.structuredAppendSequenceNumber
    }

    pub closed spec fn symbology_modifier(&self) -> u32 {
        self.symbologyModifier
    }

    /// A result without structured append and without a symbology modifier.
    pub fn new(rawBytes: Vec<u8>, text: String, byteSegments: Vec<u8>, ecLevel: String) -> (r: Self)
        ensures
            r.raw_bytes() == rawBytes@,
            r.num_bits() == rawBytes@.len(),
            r.text() == text@,
            r.byte_segments() == byteSegments@,
            r.ec_level() == ecLevel@,
            r.errors_corrected() == 0,
            r.erasures() == 0,
            r.parity() == -2,
            r.sequence_number() == -2,
            r.symbology_modifier() == 0,
    {
        Self::with_all(rawBytes, text, byteSegments, ecLevel, -2, -2, 0)
    }

    /// A result with a symbology modifier.
    pub fn with_symbology(
        rawBytes: Vec<u8>,
        text: String,
        byteSegments: Vec<u8>,
        ecLevel: String,
        symbologyModifier: u32,
    ) -> (r: Self)
        ensures
            r.raw_bytes() == rawBytes@,
            r.num_bits() == rawBytes@.len(),
            r.text() == text@,
            r.byte_segments() == byteSegments@,
            r.ec_level() == ecLevel@,
            r.errors_corrected() == 0,
            r.erasures() == 0,
            r.parity() == -1,
            r.sequence_number() == -1,
            r.symbology_modifier() == symbologyModifier,
    {
        Self::with_all(rawBytes, text, byteSegments, ecLevel, -1, -1, symbologyModifier)
    }

    /// A result that is part of a structured append.
    pub fn with_sa(
        rawBytes: Vec<u8>,
        text: String,
        byteSegments: Vec<u8>,
        ecLevel: String,
        saSequence: i32,
        saParity: i32,
    ) -> (r: Self)
        ensures
            r.raw_bytes() == rawBytes@,
            r.num_bits() == rawBytes@.len(),
            r.text() == text@,
            r.byte_segments() == byteSegments@,
            r.ec_level() == ecLevel@,
            r.errors_corrected() == 0,
            r.erasures() == 0,
            r.parity() == saParity,
            r.sequence_number() == saSequence,
            r.symbology_modifier() == 0,
    {
        Self::with_all(rawBytes, text, byteSegments, ecLevel, saSequence, saParity, 0)
    }

    /// A result with all its parts.  All raw bytes count as valid.
    pub fn with_all(
        rawBytes: Vec<u8>,
        text: String,
        byteSegments: Vec<u8>,
        ecLevel: String,
        saSequence: i32,
        saParity: i32,
        symbologyModifier: u32,
    ) -> (r: Self)
        ensures
            r.raw_bytes() == rawBytes@,
            r.num_bits() == rawBytes@.len(),
            r.text() == text@,
            r.byte_segments() == byteSegments@,
            r.ec_level() == ecLevel@,
            r.errors_corrected() == 0,
            r.erasures() == 0,
            r.parity() == saParity,
            r.sequence_number() == saSequence,
            r.symbology_modifier() == symbologyModifier,
    {
        let nb = rawBytes.len();
        Self {
            rawBytes,
            numBits: nb,
            text,
            byteSegments,
            ecLevel,
            errorsCorrected: 0,
            erasures: 0,
            structuredAppendParity: saParity,
            structuredAppendSequenceNumber: saSequence,
            symbologyModifier,
        }
    }

    /// The raw bytes representing the result.
    pub fn getRawBytes(&self) -> (r: &Vec<u8>)
        ensures
            r@ == self.raw_bytes(),
    {
        &self.rawBytes
    }

    /// How many of the raw bytes are valid.
    pub fn getNumBits(&self) -> (r: usize)
        ensures
            r == self.num_bits(),
    {
        self.numBits
    }

    /// Overrides how many of the raw bytes are valid.
    pub fn setNumBits(&mut self, numBits: usize)
        ensures
            final(self).num_bits() == numBits,
            final(self).raw_bytes() == old(self).raw_bytes(),
            final(self).text() == old(self).text(),
            final(self).byte_segments() == old(self).byte_segments(),
            final(self).ec_level() == old(self).ec_level(),
            final(self).errors_corrected() == old(self).errors_corrected(),
            final(self).erasures() == old(self).erasures(),
            final(self).parity() == old(self).parity(),
            final(self).sequence_number() == old(self).sequence_number(),
            final(self).symbology_modifier() == old(self).symbology_modifier(),
    {
        self.numBits = numBits;
    }

    /// The text representation of the result.
    pub fn getText(&self) -> (r: &str)
        ensures
            r@ == self.text(),
    {
        self.text.as_str()
    }

    /// The byte segments in the result.
    pub fn getByteSegments(&self) -> (r: &Vec<u8>)
        ensures
            r@ == self.byte_segments(),
    {
        &self.byteSegments
    }

    /// The name of the error correction level used.
    pub fn getECLevel(&self) -> (r: &str)
        ensures
            r@ == self.ec_level(),
    {
        self.ecLevel.as_str()
    }

    /// The number of errors corrected.
    pub fn getErrorsCorrected(&self) -> (r: u64)
        ensures
            r == self.errors_corrected(),
    {
        self.errorsCorrected
    }

    pub fn setErrorsCorrected(&mut self, errorsCorrected: u64)
        ensures
            final(self).errors_corrected() == errorsCorrected,
            final(self).raw_bytes() == old(self).raw_bytes(),
            final(self).num_bits() == old(self).num_bits(),
            final(self).text() == old(self).text(),
            final(self).byte_segments() == old(self).byte_segments(),
            final(self).ec_level() == old(self).ec_level(),
            final(self).erasures() == old(self).erasures(),
            final(self).parity() == old(self).parity(),
            final(self).sequence_number() == old(self).sequence_number(),
            final(self).symbology_modifier() == old(self).symbology_modifier(),
    {
        self.errorsCorrected = errorsCorrected;
    }

    /// The number of erasures corrected.
    pub fn getErasures(&self) -> (r: u64)
        ensures
            r == self.erasures(),
    {
        self.erasures
    }

    pub fn setErasures(&mut self, erasures: u64)
        ensures
            final(self).erasures() == erasures,
            final(self).raw_bytes() == old(self).raw_bytes(),
            final(self).num_bits() == old(self).num_bits(),
            final(self).text() == old(self).text(),
            final(self).byte_segments() == old(self).byte_segments(),
            final(self).ec_level() == old(self).ec_level(),
            final(self).errors_corrected() == old(self).errors_corrected(),
            final(self).parity() == old(self).parity(),
            final(self).sequence_number() == old(self).sequence_number(),
            final(self).symbology_modifier() == old(self).symbology_modifier(),
    {
        self.erasures = erasures
    }

    /// Whether the result is part of a structured append.
    pub fn hasStructuredAppend(&self) -> (r: bool)
        ensures
            r == (self.parity() >= 0 && self.sequence_number() >= 0),
    {
        self.structuredAppendParity >= 0 && self.structuredAppendSequenceNumber >= 0
    }

    pub fn getStructuredAppendParity(&self) -> (r: i32)
        ensures
            r == self.parity(),
    {
        self.structuredAppendParity
    }

    pub fn getStructuredAppendSequenceNumber(&self) -> (r: i32)
        ensures
            r == self.sequence_number(),
    {
        self.structuredAppendSequenceNumber
    }

    pub fn getSymbologyModifier(&self) -> (r: u32)
        ensures
            r == self.symbology_modifier(),
    {
        self.symbologyModifier
    }
}

} // verus!
