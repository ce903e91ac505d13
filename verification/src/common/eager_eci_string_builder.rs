//! Assembling a decoded string from bytes and ECIs, decoding the bytes
//! gathered so far whenever the character set changes.

use crate::common::character_set_eci::{eci_by_value, CharacterSetECI};
use crate::common::charset_codec::{decode, decoding_of};
use crate::common::eci_string_builder::{decimal, decimal_bytes};
use crate::exceptions::Exceptions;
use vstd::prelude::*;
use vstd::string::StringSliceAdditionalSpecFns;

verus! {

/// The text that pending bytes turn into when they are decoded: UTF-8 is
/// read strictly, every other character set with U+FFFD for what it
/// cannot read.  Bytes that cannot be decoded at all contribute nothing.
pub open spec fn flushed_text(bytes: Seq<u8>, cs: CharacterSetECI) -> Seq<char> {
    if bytes.len() == 0 {
        Seq::empty()
    } else {
        match decoding_of(cs, bytes, cs == CharacterSetECI::UTF8) {
            Some(text) => text,
            None => Seq::empty(),
        }
    }
}

/// Converts a sequence of ECIs and bytes into a string.
pub struct ECIStringBuilder {
    current_bytes: Vec<u8>,
    result: String,
    current_charset: CharacterSetECI,
}

impl ECIStringBuilder {
    /// The bytes appended since the last decoding.
    pub closed spec fn pending(&self) -> Seq<u8> {
        self.current_bytes@
    }

    /// The text decoded so far.
    pub closed spec fn decoded(&self) -> Seq<char> {
        self.result@
    }

    /// The character set of the pending bytes.
    pub closed spec fn charset(&self) -> CharacterSetECI {
        self.current_charset
    }

    /// An empty builder that reads UTF-8 until an ECI says otherwise.
    pub fn new() -> (r: Self)
        ensures
            r.pending() == Seq::<u8>::empty(),
            r.decoded() == Seq::<char>::empty(),
            r.charset() == CharacterSetECI::UTF8,
    {
        Self {
            current_bytes: Vec::new(),
            result: String::new(),
            current_charset: CharacterSetECI::UTF8,
        }
    }

    /// An empty builder with room for `initial_capacity` bytes, which
    /// reads ISO-8859-1 until an ECI says otherwise.
    pub fn with_capacity(initial_capacity: usize) -> (r: Self)
        ensures
            r.pending() == Seq::<u8>::empty(),
            r.decoded() == Seq::<char>::empty(),
            r.charset() == CharacterSetECI::ISO8859_1,
    {
        Self {
            current_bytes: Vec::with_capacity(initial_capacity),
            result: String::new(),
            current_charset: CharacterSetECI::ISO8859_1,
        }
    }

    /// Appends the lowest byte of `value`.
    pub fn append_char(&mut self, value: char)
        ensures
            final(self).pending() == old(self).pending().push((value as u32 % 256) as u8),
            final(self).decoded() == old(self).decoded(),
            final(self).charset() == old(self).charset(),
    {
        self.current_bytes.push((value as u32 % 256) as u8);
    }

    /// Appends a byte.
    pub fn append_byte(&mut self, value: u8)
        ensures
            final(self).pending() == old(self).pending().push(value),
            final(self).decoded() == old(self).decoded(),
            final(self).charset() == old(self).charset(),
    {
        self.current_bytes.push(value);
    }

    /// Appends bytes.
    fn append_all(&mut self, value: &Vec<u8>)
        ensures
            final(self).pending() == old(self).pending() + value@,
            final(self).decoded() == old(self).decoded(),
            final(self).charset() == old(self).charset(),
    {
        let mut i: usize = 0;
        while i < value.len()
            invariant
                i <= value.len(),
                self.result@ == old(self).result@,
                self.current_charset == old(self).current_charset,
                self.current_bytes@ == old(self).current_bytes@ + value@.take(i as int),
            decreases value.len() - i,
        {
            self.current_bytes.push(value[i]);
            i += 1;
            assert(self.current_bytes@ =~= old(self).current_bytes@ + value@.take(i as int));
        }
        assert(value@.take(value.len() as int) =~= value@);
    }

    /// Appends the bytes of `value`.
    pub fn append_string(&mut self, value: &str)
        ensures
            final(self).pending() == old(self).pending() + value.spec_bytes(),
            final(self).decoded() == old(self).decoded(),
            final(self).charset() == old(self).charset(),
    {
        let data = value.as_bytes_vec();
        self.append_all(&data);
    }

    /// Appends the decimal notation of `value`.
    pub fn append(&mut self, value: i32)
        ensures
            final(self).pending() == old(self).pending() + decimal(value as int),
            final(self).decoded() == old(self).decoded(),
            final(self).charset() == old(self).charset(),
    {
        let text = decimal_bytes(value);
        self.append_all(&text);
    }

    /// Appends an ECI value: the pending bytes are decoded, and the bytes
    /// that follow are read in the character set that the value designates.
    pub fn appendECI(&mut self, value: u32) -> (r: Result<(), Exceptions>)
        ensures
            final(self).pending() == Seq::<u8>::empty(),
            final(self).decoded() == old(self).decoded() + flushed_text(
                old(self).pending(),
                old(self).charset(),
            ),
            match eci_by_value(value) {
                Some(cs) => r is Ok && final(self).charset() == cs,
                None => r == Err::<(), Exceptions>(Exceptions::NotFoundException)
                    && final(self).charset() == old(self).charset(),
            },
    {
        self.encodeCurrentBytesIfAny();
        match CharacterSetECI::getCharacterSetECIByValue(value) {
            Ok(cs) => {
                self.current_charset = cs;
                Ok(())
            },
            Err(e) => Err(e),
        }
    }

    /// Decodes the pending bytes, if there are any.
    pub fn encodeCurrentBytesIfAny(&mut self)
        ensures
            final(self).pending() == Seq::<u8>::empty(),
            final(self).decoded() == old(self).decoded() + flushed_text(
                old(self).pending(),
                old(self).charset(),
            ),
            final(self).charset() == old(self).charset(),
    {
        if self.current_bytes.len() > 0 {
            let strict = self.current_charset == CharacterSetECI::UTF8;
            match decode(self.current_charset, &self.current_bytes, strict) {
                Some(text) => {
                    self.result.append(text.as_str());
                },
                None => {
                    assert(self.result@ =~= old(self).result@ + Seq::<char>::empty());
                },
            }
            self.current_bytes.clear();
        } else {
            assert(self.result@ =~= old(self).result@ + Seq::<char>::empty());
            assert(self.current_bytes@ =~= Seq::<u8>::empty());
        }
    }

    /// Appends the characters of `value`, after the pending bytes.
    pub fn appendCharacters(&mut self, value: &str)
        ensures
            final(self).pending() == Seq::<u8>::empty(),
            final(self).decoded() == old(self).decoded() + flushed_text(
                old(self).pending(),
                old(self).charset(),
            ) + value@,
            final(self).charset() == old(self).charset(),
    {
        self.encodeCurrentBytesIfAny();
        self.result.append(value);
    }

    /// Decodes the pending bytes, and gives the length of the text in
    /// bytes of UTF-8.
    pub fn len(&mut self) -> (r: usize)
        ensures
            final(self).pending() == Seq::<u8>::empty(),
            final(self).decoded() == old(self).decoded() + flushed_text(
                old(self).pending(),
                old(self).charset(),
            ),
            final(self).charset() == old(self).charset(),
            r == vstd::utf8::encode_utf8(final(self).decoded()).len() as usize,
    {
        self.encodeCurrentBytesIfAny();
        self.result.as_str().len()
    }

    /// Whether nothing has been appended.
    pub fn is_empty(&self) -> (r: bool)
        ensures
            r == (self.pending().len() == 0 && self.decoded().len() == 0),
    {
        self.current_bytes.len() == 0 && self.result.as_str().unicode_len() == 0
    }

    /// The text decoded so far, without the pending bytes.
    pub fn to_string(&self) -> (r: String)
        ensures
            r@ == self.decoded(),
    {
        self.result.clone()
    }
}

} // verus!
