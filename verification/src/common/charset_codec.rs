//! Turning text into bytes and back in a given character set.
//!
//! ISO-8859-1 is handled here: its bytes are the code points.  Every other
//! character set is left to the `encoding` crate, which finds it by name.

use crate::common::character_set_eci::{charset_name, CharacterSetECI};
use vstd::prelude::*;

verus! {

/// The bytes that the `encoding` crate writes for `text` in the character
/// set that it knows by `label`, if it knows one and can write the text.
/// With `strict`, a character that the set lacks makes the encoding fail;
/// without, a question mark stands for it.
pub uninterp spec fn label_encoding(label: Seq<char>, text: Seq<char>, strict: bool) -> Option<
    Seq<u8>,
>;

/// The text that the `encoding` crate reads from `bytes` in the character
/// set that it knows by `label`, if it knows one and can read the bytes.
/// With `strict`, an invalid byte sequence makes the decoding fail;
/// without, U+FFFD stands for it.
pub uninterp spec fn label_decoding(label: Seq<char>, bytes: Seq<u8>, strict: bool) -> Option<
    Seq<char>,
>;

/// Calls `encoding::label::encoding_from_whatwg_label` and, on the
/// encoding found, `Encoding::encode` with the `Strict` trap.  Nothing is
/// claimed of the bytes but that they depend on the arguments alone.
#[verifier::external_body]
fn encode_strictly(label: &str, text: &str) -> (r: Option<Vec<u8>>)
    ensures
        r is Some <==> label_encoding(label@, text@, true) is Some,
        r matches Some(v) ==> label_encoding(label@, text@, true) == Some(v@),
{
    let found = encoding::label::encoding_from_whatwg_label(label)?;
    found.encode(text, encoding::EncoderTrap::Strict).ok()
}

/// Calls `encoding::label::encoding_from_whatwg_label` and, on the
/// encoding found, `Encoding::encode` with the `Replace` trap.  Nothing is
/// claimed of the bytes but that they depend on the arguments alone.
#[verifier::external_body]
fn encode_replacing(label: &str, text: &str) -> (r: Option<Vec<u8>>)
    ensures
        r is Some <==> label_encoding(label@, text@, false) is Some,
        r matches Some(v) ==> label_encoding(label@, text@, false) == Some(v@),
{
    let found = encoding::label::encoding_from_whatwg_label(label)?;
    found.encode(text, encoding::EncoderTrap::Replace).ok()
}

/// Calls `encoding::label::encoding_from_whatwg_label` and, on the
/// encoding found, `Encoding::decode` with the `Strict` trap.  Nothing is
/// claimed of the text but that it depends on the arguments alone.
#[verifier::external_body]
fn decode_strictly(label: &str, bytes: &Vec<u8>) -> (r: Option<String>)
    ensures
        r is Some <==> label_decoding(label@, bytes@, true) is Some,
        r matches Some(s) ==> label_decoding(label@, bytes@, true) == Some(s@),
{
    let found = encoding::label::encoding_from_whatwg_label(label)?;
    found.decode(bytes, encoding::DecoderTrap::Strict).ok()
}

/// Calls `encoding::label::encoding_from_whatwg_label` and, on the
/// encoding found, `Encoding::decode` with the `Replace` trap.  Nothing is
/// claimed of the text but that it depends on the arguments alone.
#[verifier::external_body]
fn decode_replacing(label: &str, bytes: &Vec<u8>) -> (r: Option<String>)
    ensures
        r is Some <==> label_decoding(label@, bytes@, false) is Some,
        r matches Some(s) ==> label_decoding(label@, bytes@, false) == Some(s@),
{
    let found = encoding::label::encoding_from_whatwg_label(label)?;
    found.decode(bytes, encoding::DecoderTrap::Replace).ok()
}

/// Calls `String::push`, which appends one character.
#[verifier::external_body]
pub(crate) fn push_char(text: &mut String, c: char)
    ensures
        final(text)@ == old(text)@.push(c),
{
    text.push(c)
}

/// The byte that stands for a character in ISO-8859-1, where there is one.
pub open spec fn latin1_byte(c: char, strict: bool) -> Option<u8> {
    if c as u32 <= 0xFF {
        Some(c as u8)
    } else if strict {
        None
    } else {
        Some(0x3Fu8)
    }
}

/// The bytes of a text in ISO-8859-1: each character is written as its
/// code point.  A character above U+00FF makes a strict encoding fail,
/// and is else written as a question mark.
pub open spec fn latin1_encoding(text: Seq<char>, strict: bool) -> Option<Seq<u8>> {
    if forall|i: int| 0 <= i < text.len() ==> (#[trigger] latin1_byte(text[i], strict)) is Some {
        Some(Seq::new(text.len(), |i: int| latin1_byte(text[i], strict)->Some_0))
    } else {
        None
    }
}

/// The text of bytes in ISO-8859-1: each byte is read as a code point.
pub open spec fn latin1_decoding(bytes: Seq<u8>) -> Seq<char> {
    Seq::new(bytes.len(), |i: int| bytes[i] as char)
}

/// The bytes of `text` in a character set.
pub open spec fn encoding_of(cs: CharacterSetECI, text: Seq<char>, strict: bool) -> Option<
    Seq<u8>,
> {
    if cs == CharacterSetECI::ISO8859_1 {
        latin1_encoding(text, strict)
    } else {
        label_encoding(charset_name(cs), text, strict)
    }
}

/// The text of `bytes` in a character set.
pub open spec fn decoding_of(cs: CharacterSetECI, bytes: Seq<u8>, strict: bool) -> Option<
    Seq<char>,
> {
    if cs == CharacterSetECI::ISO8859_1 {
        Some(latin1_decoding(bytes))
    } else {
        label_decoding(charset_name(cs), bytes, strict)
    }
}

/// Whether a character set can write a character.
pub open spec fn can_encode(cs: CharacterSetECI, c: char) -> bool {
    encoding_of(cs, seq![c], true) is Some
}

/// The bytes of a character in a character set that can write it.
pub open spec fn encoded_char(cs: CharacterSetECI, c: char) -> Seq<u8> {
    encoding_of(cs, seq![c], true)->Some_0
}

/// Writes a text in ISO-8859-1.
pub fn latin1_encode(text: &str, strict: bool) -> (r: Option<Vec<u8>>)
    ensures
        r is Some <==> latin1_encoding(text@, strict) is Some,
        r matches Some(v) ==> latin1_encoding(text@, strict) == Some(v@),
{
    let n = text.unicode_len();
    let mut bytes: Vec<u8> = Vec::new();
    let mut i: usize = 0;
    while i < n
        invariant
            i <= n,
            n == text@.len(),
            bytes@.len() == i,
            forall|j: int| 0 <= j < i ==> (#[trigger] latin1_byte(text@[j], strict)) == Some(bytes@[j]),
        decreases n - i,
    {
        let c = text.get_char(i);
        if c as u32 <= 0xFF {
            bytes.push(c as u8);
        } else if strict {
            assert(latin1_byte(text@[i as int], strict) is None);
            return None;
        } else {
            bytes.push(0x3Fu8);
        }
        i += 1;
    }
    proof {
        assert(bytes@ =~= latin1_encoding(text@, strict)->Some_0);
    }
    Some(bytes)
}

/// Reads bytes as ISO-8859-1.
pub fn latin1_decode(bytes: &Vec<u8>) -> (r: String)
    ensures
        r@ == latin1_decoding(bytes@),
{
    let mut text = String::new();
    let mut i: usize = 0;
    while i < bytes.len()
        invariant
            i <= bytes.len(),
            text@ == latin1_decoding(bytes@).take(i as int),
        decreases bytes.len() - i,
    {
        push_char(&mut text, bytes[i] as char);
        i += 1;
        assert(text@ =~= latin1_decoding(bytes@).take(i as int));
    }
    assert(latin1_decoding(bytes@).take(bytes.len() as int) =~= latin1_decoding(bytes@));
    text
}

/// Writes a text in a character set.
pub fn encode(cs: CharacterSetECI, text: &str, strict: bool) -> (r: Option<Vec<u8>>)
    ensures
        r is Some <==> encoding_of(cs, text@, strict) is Some,
        r matches Some(v) ==> encoding_of(cs, text@, strict) == Some(v@),
{
    if cs == CharacterSetECI::ISO8859_1 {
        latin1_encode(text, strict)
    } else if strict {
        encode_strictly(CharacterSetECI::getCharset(&cs), text)
    } else {
        encode_replacing(CharacterSetECI::getCharset(&cs), text)
    }
}

/// Reads bytes in a character set.
pub fn decode(cs: CharacterSetECI, bytes: &Vec<u8>, strict: bool) -> (r: Option<String>)
    ensures
        r is Some <==> decoding_of(cs, bytes@, strict) is Some,
        r matches Some(s) ==> decoding_of(cs, bytes@, strict) == Some(s@),
{
    if cs == CharacterSetECI::ISO8859_1 {
        Some(latin1_decode(bytes))
    } else if strict {
        decode_strictly(CharacterSetECI::getCharset(&cs), bytes)
    } else {
        decode_replacing(CharacterSetECI::getCharset(&cs), bytes)
    }
}

/// Writes one character in a character set, if the set has it.
pub fn encode_one(cs: CharacterSetECI, c: char) -> (r: Option<Vec<u8>>)
    ensures
        r is Some <==> can_encode(cs, c),
        r matches Some(v) ==> v@ == encoded_char(cs, c),
{
    let mut text = String::new();
    push_char(&mut text, c);
    assert(text@ =~= seq![c]);
    encode(cs, text.as_str(), true)
}

} // verus!
