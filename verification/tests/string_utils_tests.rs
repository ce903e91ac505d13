use rxing::common::string_utils::Charset;
use rxing::common::StringUtils;

#[test]
fn byte_order_marks_decide() {
    assert_eq!(
        StringUtils::guessCharset(&[0xFE, 0xFF, 0x00, 0x41], None),
        Some(Charset::Utf16BE)
    );
    assert_eq!(
        StringUtils::guessCharset(&[0xFF, 0xFE, 0x41, 0x00], None),
        Some(Charset::Utf16LE)
    );
    assert_eq!(
        StringUtils::guessCharset(&[0xEF, 0xBB, 0xBF, 0x41], None),
        Some(Charset::Utf8)
    );
    // two bytes are too few for a byte order mark, and these two can
    // only be ISO-8859-1
    assert_eq!(
        StringUtils::guessCharset(&[0xFE, 0xFF], None),
        Some(Charset::Iso8859_1)
    );
}

#[test]
fn plain_ascii_is_latin_one() {
    assert_eq!(
        StringUtils::guessCharset(b"hello world", None),
        Some(Charset::Iso8859_1)
    );
    assert_eq!(StringUtils::guessCharset(&[], None), Some(Charset::ShiftJis));
    assert_eq!(
        StringUtils::guessEncoding(b"hello world", None),
        Some("ISO8859_1".to_string())
    );
}

#[test]
fn latin_one_text() {
    // "m\u{e4}\u{df}ig" in ISO-8859-1
    assert_eq!(
        StringUtils::guessCharset(&[0x6D, 0xE4, 0xDF, 0x69, 0x67], None),
        Some(Charset::Iso8859_1)
    );
}

#[test]
fn utf8_text() {
    assert_eq!(
        StringUtils::guessCharset("\u{3042}\u{416}x".as_bytes(), None),
        Some(Charset::Utf8)
    );
    assert_eq!(
        StringUtils::guessEncoding("\u{1F600}".as_bytes(), None),
        Some("UTF8".to_string())
    );
    // a lead byte without its continuation is no UTF-8
    assert_eq!(
        StringUtils::guessCharset(&[0x41, 0xC3], None),
        Some(Charset::Iso8859_1)
    );
}

#[test]
fn shift_jis_text() {
    // three double-byte characters in a row
    assert_eq!(
        StringUtils::guessCharset(&[0x8B, 0xE0, 0x8B, 0x9B, 0x8B, 0xE0], None),
        Some(Charset::ShiftJis)
    );
    // three katakana in a row
    assert_eq!(
        StringUtils::guessCharset(&[0xB1, 0xB2, 0xB3], None),
        Some(Charset::ShiftJis)
    );
    assert_eq!(
        StringUtils::guessEncoding(&[0xB1, 0xB2, 0xB3], None),
        Some("SJIS".to_string())
    );
    // exactly two katakana in the whole text
    assert_eq!(
        StringUtils::guessCharset(&[0x41, 0xB1, 0xB2, 0x41], None),
        Some(Charset::ShiftJis)
    );
}

#[test]
fn a_hint_decides() {
    assert_eq!(
        StringUtils::guessCharset(b"abc", Some("UTF-8")),
        Some(Charset::Named("utf-8".to_string()))
    );
    assert_eq!(
        StringUtils::guessCharset(b"abc", Some("SJIS")),
        Some(Charset::Named("windows-31j".to_string()))
    );
    assert_eq!(StringUtils::guessCharset(b"abc", Some("no such set")), None);
    assert_eq!(
        StringUtils::guessEncoding(b"abc", Some("shift_jis")),
        Some("SJIS".to_string())
    );
    assert_eq!(
        StringUtils::guessEncoding(b"abc", Some("utf8")),
        Some("UTF8".to_string())
    );
    assert_eq!(
        StringUtils::guessEncoding(b"abc", Some("latin2")),
        Some("iso-8859-2".to_string())
    );
    assert_eq!(StringUtils::guessEncoding(b"abc", Some("no such set")), None);
}

#[test]
fn names_of_guesses() {
    assert_eq!(
        StringUtils::name_of(&Charset::Utf16BE, "windows-31j", "utf-8"),
        "utf-16be"
    );
    assert_eq!(
        StringUtils::name_of(&Charset::Named("iso-8859-1".to_string()), "windows-31j", "utf-8"),
        "ISO8859_1"
    );
    assert_eq!(
        StringUtils::name_of(&Charset::Named("gbk".to_string()), "windows-31j", "utf-8"),
        "gbk"
    );
}
