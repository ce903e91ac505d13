use rxing::common::eci_string_builder::{ECIStringBuilder as SegmentBuilder, Eci};
use rxing::common::{
    CharacterSetECI, ECIEncoderSet, ECIInput, ECIStringBuilder, MinimalECIInput,
};
use rxing::Exceptions;

fn tokens_of(input: &MinimalECIInput) -> Vec<u16> {
    let mut tokens = Vec::new();
    for i in 0..input.length() {
        if input.isECI(i as u32).unwrap() {
            tokens.push(256 + input.getECIValue(i).unwrap() as u16);
        } else if input.isFNC1(i).unwrap() {
            tokens.push(1000);
        } else {
            tokens.push(input.charAt(i).unwrap() as u16);
        }
    }
    tokens
}

#[test]
fn latin_input_needs_one_encoder() {
    let set = ECIEncoderSet::new("abc\u{e9}\u{ff}", None, -1);
    assert_eq!(set.len(), 1);
    assert_eq!(set.getCharset(0), CharacterSetECI::ISO8859_1);
    assert_eq!(set.getCharsetName(0), "ISO-8859-1");
    assert_eq!(set.getECIValue(0), 1);
    assert_eq!(set.getPriorityEncoderIndex(), None);
    assert!(set.canEncode('\u{e9}', 0));
    assert!(!set.canEncode('\u{100}', 0));
    assert_eq!(set.encode_char('\u{e9}', 0), vec![0xE9]);
    assert_eq!(set.try_encode_char('\u{20ac}', 0), None);
    assert_eq!(set.encode_string("a\u{20ac}b", 0), vec![0x61, 0x3F, 0x62]);
}

#[test]
fn first_encoder_is_always_latin_one() {
    for text in ["", "a", "\u{3042}", "\u{20ac}\u{416}", "\u{1F600}"] {
        let set = ECIEncoderSet::new(text, None, -1);
        assert_eq!(set.getCharset(0), CharacterSetECI::ISO8859_1);
    }
}

#[test]
fn other_scripts_add_encoders_and_unicode() {
    // the euro sign comes with ISO-8859-15 ... but ISO-8859-7 is tried before
    // it and has it as well; the Cyrillic letter comes with ISO-8859-5
    let set = ECIEncoderSet::new("\u{416}\u{20ac}", None, -1);
    assert_eq!(set.len(), 5);
    assert_eq!(set.getCharset(0), CharacterSetECI::ISO8859_1);
    assert_eq!(set.getCharset(1), CharacterSetECI::ISO8859_5);
    assert_eq!(set.getCharset(2), CharacterSetECI::ISO8859_7);
    assert_eq!(set.getCharset(3), CharacterSetECI::UTF8);
    assert_eq!(set.getCharset(4), CharacterSetECI::UnicodeBigUnmarked);
    assert!(set.canEncode('\u{416}', 1));
    assert!(!set.canEncode('\u{416}', 2));
    assert_eq!(set.encode_char('\u{416}', 3), vec![0xD0, 0x96]);
    assert_eq!(set.encode_char('\u{416}', 4), vec![0x04, 0x16]);
    assert!(set.covers_all("\u{416}\u{20ac}abc\u{1F600}", -1));
}

#[test]
fn character_without_single_byte_encoder_needs_unicode() {
    let set = ECIEncoderSet::new("\u{1F600}", None, -1);
    assert_eq!(set.len(), 3);
    assert_eq!(set.getCharset(1), CharacterSetECI::UTF8);
    assert_eq!(set.getCharset(2), CharacterSetECI::UnicodeBigUnmarked);
}

#[test]
fn priority_charset_is_looked_up() {
    let unicode = ECIEncoderSet::new("abc", Some(CharacterSetECI::UTF8), -1);
    assert_eq!(unicode.len(), 3);
    assert_eq!(unicode.getPriorityEncoderIndex(), Some(1));
    let latin = ECIEncoderSet::new("abc", Some(CharacterSetECI::ISO8859_1), -1);
    assert_eq!(latin.len(), 1);
    assert_eq!(latin.getPriorityEncoderIndex(), Some(0));
    let absent = ECIEncoderSet::new("abc", Some(CharacterSetECI::Big5), -1);
    assert_eq!(absent.getPriorityEncoderIndex(), None);
}

#[test]
fn fnc1_needs_no_encoder() {
    let set = ECIEncoderSet::new("a\u{3042}b", None, 0x3042);
    assert_eq!(set.len(), 1);
    assert!(ECIEncoderSet::stands_for_fnc1('\u{3042}', 0x3042));
    assert!(!ECIEncoderSet::stands_for_fnc1('\u{ff}', -1));
}

#[test]
fn plain_input_is_its_code_points() {
    let input = MinimalECIInput::new("\u{0}abc", None, -1);
    assert_eq!(tokens_of(&input), vec![0, 97, 98, 99]);
    assert_eq!(input.length(), 4);
    for i in 0..4 {
        assert_eq!(input.isECI(i), Ok(false));
    }
    assert_eq!(input.getFNC1Character(), -1);
}

#[test]
fn plain_input_maps_fnc1_to_its_token() {
    let input = MinimalECIInput::new("a\u{1d}b", None, 0x1d);
    assert_eq!(tokens_of(&input), vec![97, 1000, 98]);
    assert_eq!(input.isFNC1(1), Ok(true));
    assert_eq!(input.isFNC1(0), Ok(false));
    assert_eq!(input.charAt(1), Ok('\u{1d}'));
    assert_eq!(input.isFNC1(3), Err(Exceptions::IndexOutOfBoundsException));
}

#[test]
fn hiragana_after_latin_switches_encoder() {
    // the character costs two bytes in Shift_JIS and in UTF-16BE, three in
    // UTF-8; of the two cheapest the encoder that stands first is taken
    let input = MinimalECIInput::new("A\u{3042}", None, -1);
    assert_eq!(tokens_of(&input), vec![0x41, 256 + 20, 0x82, 0xA0]);
    assert_eq!(input.to_string(), "'A', ECI(20), \u{82}, \u{a0}");
}

#[test]
fn priority_utf8_writes_everything_in_utf8() {
    let input = MinimalECIInput::new("A\u{3042}", Some(CharacterSetECI::UTF8), -1);
    assert_eq!(
        tokens_of(&input),
        vec![256 + 26, 0x41, 0xE3, 0x81, 0x82]
    );
}

#[test]
fn minimal_input_counts_the_cost_of_switching() {
    // one Cyrillic letter between Latin-1 letters: staying in ISO-8859-5
    // costs nothing more, going back to ISO-8859-1 would cost an ECI
    let input = MinimalECIInput::new("a\u{416}b", None, -1);
    assert_eq!(tokens_of(&input), vec![0x61, 256 + 7, 0xB6, 0x62]);
    // letters that only ISO-8859-1 has, on both sides of the Cyrillic one
    let mixed = MinimalECIInput::new("\u{e9}\u{416}\u{e9}", None, -1);
    let tokens = tokens_of(&mixed);
    let ecis = tokens.iter().filter(|t| **t > 255 && **t < 1000).count();
    let bytes = tokens.len() - ecis;
    // ISO-8859-1 for the first letter, then a Unicode encoding for the
    // other two: one ECI and five bytes.  Two switches would cost two ECIs
    // and three bytes, a Unicode encoding for everything one ECI and six
    // bytes.  UTF-8 and UTF-16BE cost the same here; UTF-8 stands first.
    assert_eq!(ecis, 1);
    assert_eq!(bytes, 5);
    assert_eq!(tokens, vec![0xE9, 256 + 26, 0xD0, 0x96, 0xC3, 0xA9]);
}

#[test]
fn try_new_agrees_with_new() {
    for text in ["", "abc", "A\u{3042}", "\u{1F600}x"] {
        let a = MinimalECIInput::try_new(text, None, -1).unwrap();
        let b = MinimalECIInput::new(text, None, -1);
        assert_eq!(tokens_of(&a), tokens_of(&b));
    }
}

#[test]
fn encode_minimally_of_a_given_set() {
    let set = ECIEncoderSet::new("\u{416}", None, -1);
    assert_eq!(
        MinimalECIInput::encodeMinimally("\u{416}", &set, -1),
        vec![256 + 7, 0xB6]
    );
    assert_eq!(
        MinimalECIInput::encode_minimally_checked("", &set, -1),
        Some(vec![])
    );
    // the set of a Latin-1 text cannot write a Cyrillic letter
    let latin = ECIEncoderSet::new("abc", None, -1);
    assert_eq!(
        MinimalECIInput::encode_minimally_checked("a\u{416}", &latin, -1),
        None
    );
}

#[test]
fn reading_the_tokens() {
    let input = MinimalECIInput::new("ab\u{416}c", None, -1);
    // 'a', 'b', ECI(7), 0xB6, 'c'
    assert_eq!(input.length(), 5);
    assert_eq!(input.charAt(0), Ok('a'));
    assert_eq!(input.charAt(2), Err(Exceptions::IllegalArgumentException));
    assert_eq!(input.charAt(3), Ok('\u{b6}'));
    assert_eq!(input.charAt(5), Err(Exceptions::IndexOutOfBoundsException));
    assert_eq!(input.isECI(2), Ok(true));
    assert_eq!(input.isECI(5), Err(Exceptions::IndexOutOfBoundsException));
    assert_eq!(input.getECIValue(2), Ok(7));
    assert_eq!(input.getECIValue(1), Err(Exceptions::IllegalArgumentException));
    assert_eq!(input.getECIValue(9), Err(Exceptions::IndexOutOfBoundsException));
    assert_eq!(input.subSequence(0, 2), Ok(vec!['a', 'b']));
    assert_eq!(input.subSequence(3, 5), Ok(vec!['\u{b6}', 'c']));
    assert_eq!(input.subSequence(1, 1), Ok(vec![]));
    assert_eq!(
        input.subSequence(1, 3),
        Err(Exceptions::IllegalArgumentException)
    );
    assert_eq!(
        input.subSequence(3, 2),
        Err(Exceptions::IndexOutOfBoundsException)
    );
    assert_eq!(
        input.subSequence(0, 6),
        Err(Exceptions::IndexOutOfBoundsException)
    );
    assert!(input.haveNCharacters(0, 2));
    assert!(!input.haveNCharacters(0, 3));
    assert!(input.haveNCharacters(3, 2));
    assert!(!input.haveNCharacters(3, 3));
    assert!(input.haveNCharacters(5, 0));
    assert!(!input.haveNCharacters(6, 0));
    assert!(!input.haveNCharacters(0, usize::MAX));
}

#[test]
fn segment_builder_decodes_each_segment() {
    let mut builder = SegmentBuilder::new();
    builder.append_bytes(&[0x61, 0xE9]);
    builder.append_eci(Eci::Charset(CharacterSetECI::UTF8));
    builder.append_bytes(&[0xE3, 0x81, 0x82]);
    builder.append_eci(Eci::Charset(CharacterSetECI::ISO8859_5));
    builder.append_byte(0xB6);
    builder.append_eci(Eci::Binary);
    builder.append_bytes(&[0x00, 0xFF]);
    assert_eq!(builder.len(), 8);
    assert!(!builder.is_empty());
    assert_eq!(
        builder.to_string(),
        "a\u{e9}\u{3042}\u{416}\u{0}\u{ff}"
    );
    let built = builder.build_result();
    assert_eq!(built.to_string(), "a\u{e9}\u{3042}\u{416}\u{0}\u{ff}");
    assert_eq!(
        built.bytes(),
        &vec![0x61, 0xE9, 0xE3, 0x81, 0x82, 0xB6, 0x00, 0xFF]
    );
}

#[test]
fn segment_builder_passes_over_a_bad_segment() {
    let mut builder = SegmentBuilder::with_capacity(16);
    builder.append_char('x');
    builder.append_eci(Eci::Charset(CharacterSetECI::UTF8));
    builder.append_bytes(&[0xFF, 0xFE]);
    builder.append_eci(Eci::Unknown);
    builder.append_char('\u{141}');
    // the UTF-8 segment is invalid and contributes nothing; the last
    // character was appended as its lowest byte
    assert_eq!(builder.to_string(), "xA");
}

#[test]
fn segment_builder_ignores_a_leading_default_eci() {
    let mut builder = SegmentBuilder::new();
    builder.append_eci(Eci::Charset(CharacterSetECI::ISO8859_1));
    builder.append_byte(0xE9);
    assert_eq!(builder.to_string(), "\u{e9}");
    builder.append_eci(Eci::Charset(CharacterSetECI::UTF8));
    builder.append_eci(Eci::Charset(CharacterSetECI::ISO8859_1));
    builder.append_byte(0xE9);
    assert_eq!(builder.to_string(), "\u{e9}\u{e9}");
}

#[test]
fn segment_builder_appends_text_and_numbers() {
    let mut builder = SegmentBuilder::new();
    builder.append_string("abc");
    builder.append(-120);
    builder.append(0);
    builder.append(i32::MIN);
    builder.appendCharacters("\u{3042}");
    assert_eq!(builder.to_string(), "abc-1200-2147483648\u{3042}");
    let mut empty = SegmentBuilder::new();
    assert!(empty.is_empty());
    assert_eq!(empty.len(), 0);
    assert_eq!(empty.to_string(), "");
}

#[test]
fn eager_builder_decodes_at_each_eci() {
    let mut builder = ECIStringBuilder::with_capacity(8);
    assert!(builder.is_empty());
    builder.append_byte(0x61);
    builder.append_char('\u{e9}');
    assert!(!builder.is_empty());
    assert_eq!(builder.to_string(), "");
    assert_eq!(builder.appendECI(26), Ok(()));
    assert_eq!(builder.to_string(), "a\u{e9}");
    builder.append_string("\u{3042}");
    builder.append(42);
    assert_eq!(builder.appendECI(7), Ok(()));
    assert_eq!(builder.to_string(), "a\u{e9}\u{3042}42");
    builder.append_byte(0xB6);
    builder.appendCharacters("!");
    assert_eq!(builder.to_string(), "a\u{e9}\u{3042}42\u{416}!");
    // the length counts the bytes of the text in UTF-8
    assert_eq!(builder.len(), 11);
}

#[test]
fn eager_builder_rejects_unknown_eci_values() {
    let mut builder = ECIStringBuilder::new();
    builder.append_string("abc");
    assert_eq!(builder.appendECI(14), Err(Exceptions::NotFoundException));
    // the pending bytes have been decoded all the same
    assert_eq!(builder.to_string(), "abc");
    builder.append_string("d");
    builder.encodeCurrentBytesIfAny();
    assert_eq!(builder.to_string(), "abcd");
}
