//! Guessing the character set of bytes that encode a string.

use crate::common::character_set_eci::same_text;
use vstd::prelude::*;

verus! {

/// The canonical name of the encoding that the `encoding` crate knows by
/// `label`, if it knows one.
pub uninterp spec fn label_encoding_name(label: Seq<char>) -> Option<Seq<char>>;

/// Calls `encoding::label::encoding_from_whatwg_label` and, on the
/// encoding found, `Encoding::name`.
#[verifier::external_body]
fn encoding_name_for_label(label: &str) -> (r: Option<String>)
    ensures
        r is Some <==> label_encoding_name(label@) is Some,
        r matches Some(s) ==> label_encoding_name(label@) == Some(s@),
{
    let found = encoding::label::encoding_from_whatwg_label(label)?;
    Some(found.name().to_owned())
}

/// A character set that bytes may be written in.
#[derive(Debug, Clone, PartialEq, Eq)]
pub enum Charset {
    Utf16BE,
    Utf16LE,
    Utf8,
    ShiftJis,
    Iso8859_1,
    /// The encoding of the given canonical name, which a hint asked for.
    Named(String),
}

/// What bytes can still be, and what was counted in them.
pub struct Scan {
    pub can_be_iso88591: bool,
    pub can_be_shift_jis: bool,
    pub can_be_utf8: bool,
    pub utf8_bytes_left: int,
    pub utf2_bytes_chars: int,
    pub utf3_bytes_chars: int,
    pub utf4_bytes_chars: int,
    pub sjis_bytes_left: int,
    pub sjis_katakana_chars: int,
    pub sjis_cur_katakana_word_length: int,
    pub sjis_cur_double_bytes_word_length: int,
    pub sjis_max_katakana_word_length: int,
    pub sjis_max_double_bytes_word_length: int,
    pub iso_high_other: int,
}

/// Nothing is excluded before the first byte.
pub open spec fn scan_start() -> Scan {
    Scan {
        can_be_iso88591: true,
        can_be_shift_jis: true,
        can_be_utf8: true,
        utf8_bytes_left: 0,
        utf2_bytes_chars: 0,
        utf3_bytes_chars: 0,
        utf4_bytes_chars: 0,
        sjis_bytes_left: 0,
        sjis_katakana_chars: 0,
        sjis_cur_katakana_word_length: 0,
        sjis_cur_double_bytes_word_length: 0,
        sjis_max_katakana_word_length: 0,
        sjis_max_double_bytes_word_length: 0,
        iso_high_other: 0,
    }
}

/// What a byte says of UTF-8: a continuation byte is owed or not, a lead
/// byte announces one to three continuation bytes.
pub open spec fn utf8_step(s: Scan, value: u8) -> Scan {
    if !s.can_be_utf8 {
        s
    } else if s.utf8_bytes_left > 0 {
        if value < 0x80 {
            Scan { can_be_utf8: false, ..s }
        } else {
            Scan { utf8_bytes_left: s.utf8_bytes_left - 1, ..s }
        }
    } else if value >= 0x80 {
        if value < 0xC0 {
            Scan { can_be_utf8: false, ..s }
        } else if value < 0xE0 {
            Scan {
                utf8_bytes_left: s.utf8_bytes_left + 1,
                utf2_bytes_chars: s.utf2_bytes_chars + 1,
                ..s
            }
        } else if value < 0xF0 {
            Scan {
                utf8_bytes_left: s.utf8_bytes_left + 2,
                utf3_bytes_chars: s.utf3_bytes_chars + 1,
                ..s
            }
        } else if value < 0xF8 {
            Scan {
                utf8_bytes_left: s.utf8_bytes_left + 3,
                utf4_bytes_chars: s.utf4_bytes_chars + 1,
                ..s
            }
        } else {
            Scan { utf8_bytes_left: s.utf8_bytes_left + 3, can_be_utf8: false, ..s }
        }
    } else {
        s
    }
}

/// What a byte says of ISO-8859-1: the control range excludes it, and
/// the upper symbols are counted.
pub open spec fn iso_step(s: Scan, value: u8) -> Scan {
    if !s.can_be_iso88591 {
        s
    } else if value > 0x7F && value < 0xA0 {
        Scan { can_be_iso88591: false, ..s }
    } else if value > 0x9F && (value < 0xC0 || value == 0xD7 || value == 0xF7) {
        Scan { iso_high_other: s.iso_high_other + 1, ..s }
    } else {
        s
    }
}

/// What a byte says of Shift_JIS: a second byte is owed or not, and the
/// runs of katakana and of double-byte characters are measured.
pub open spec fn sjis_step(s: Scan, value: u8) -> Scan {
    if !s.can_be_shift_jis {
        s
    } else if s.sjis_bytes_left > 0 {
        if value < 0x40 || value == 0x7F || value > 0xFC {
            Scan { can_be_shift_jis: false, ..s }
        } else {
            Scan { sjis_bytes_left: s.sjis_bytes_left - 1, ..s }
        }
    } else if value == 0x80 || value == 0xA0 || value > 0xEF {
        Scan { can_be_shift_jis: false, ..s }
    } else if value > 0xA0 && value < 0xE0 {
        let run = s.sjis_cur_katakana_word_length + 1;
        Scan {
            sjis_katakana_chars: s.sjis_katakana_chars + 1,
            sjis_cur_double_bytes_word_length: 0,
            sjis_cur_katakana_word_length: run,
            sjis_max_katakana_word_length: if run > s.sjis_max_katakana_word_length {
                run
            } else {
                s.sjis_max_katakana_word_length
            },
            ..s
        }
    } else if value > 0x7F {
        let run = s.sjis_cur_double_bytes_word_length + 1;
        Scan {
            sjis_bytes_left: s.sjis_bytes_left + 1,
            sjis_cur_katakana_word_length: 0,
            sjis_cur_double_bytes_word_length: run,
            sjis_max_double_bytes_word_length: if run > s.sjis_max_double_bytes_word_length {
                run
            } else {
                s.sjis_max_double_bytes_word_length
            },
            ..s
        }
    } else {
        Scan { sjis_cur_katakana_word_length: 0, sjis_cur_double_bytes_word_length: 0, ..s }
    }
}

/// The scan after one more byte.  Once nothing can be any more, the scan stops.
pub open spec fn scan_step(s: Scan, value: u8) -> Scan {
    if !(s.can_be_iso88591 || s.can_be_shift_jis || s.can_be_utf8) {
        s
    } else {
        sjis_step(iso_step(utf8_step(s, value), value), value)
    }
}

/// The scan of the first `n` bytes.
pub open spec fn scan_of(bytes: Seq<u8>, n: int) -> Scan
    decreases n,
{
    if n <= 0 {
        scan_start()
    } else {
        scan_step(scan_of(bytes, n - 1), bytes[n - 1])
    }
}

/// Whether the bytes start with a UTF-8 byte order mark.
pub open spec fn has_utf8_bom(bytes: Seq<u8>) -> bool {
    bytes.len() > 3 && bytes[0] == 0xEF && bytes[1] == 0xBB && bytes[2] == 0xBF
}

/// The character set that bytes are guessed to be in, without a hint.
/// A UTF-16 byte order mark decides; else the bytes are scanned for what
/// they can be, and the crude heuristics below decide among UTF-8,
/// Shift_JIS and ISO-8859-1.
pub open spec fn guess(bytes: Seq<u8>) -> Charset {
    if bytes.len() > 2 && bytes[0] == 0xFE && bytes[1] == 0xFF {
        Charset::Utf16BE
    } else if bytes.len() > 2 && bytes[0] == 0xFF && bytes[1] == 0xFE {
        Charset::Utf16LE
    } else {
        let s = scan_of(bytes, bytes.len() as int);
        let can_be_utf8 = s.can_be_utf8 && s.utf8_bytes_left <= 0;
        let can_be_shift_jis = s.can_be_shift_jis && s.sjis_bytes_left <= 0;
        if can_be_utf8 && (has_utf8_bom(bytes) || s.utf2_bytes_chars + s.utf3_bytes_chars
            + s.utf4_bytes_chars > 0) {
            // a byte order mark, or a valid character of several bytes
            Charset::Utf8
        } else if can_be_shift_jis && (s.sjis_max_katakana_word_length >= 3
            || s.sjis_max_double_bytes_word_length >= 3) {
            // three valid consecutive characters that are not ASCII
            Charset::ShiftJis
        } else if s.can_be_iso88591 && can_be_shift_jis {
            // only two consecutive katakana in the whole text, or a tenth of
            // the bytes upper symbols of ISO-8859-1, speak for Shift_JIS
            if (s.sjis_max_katakana_word_length == 2 && s.sjis_katakana_chars == 2)
                || s.iso_high_other * 10 >= bytes.len() {
                Charset::ShiftJis
            } else {
                Charset::Iso8859_1
            }
        } else if s.can_be_iso88591 {
            Charset::Iso8859_1
        } else if can_be_shift_jis {
            Charset::ShiftJis
        } else {
            Charset::Utf8
        }
    }
}

/// Every count of a scan is at most three times the number of bytes.
pub open spec fn scan_bounded(s: Scan, n: int) -> bool {
    &&& 0 <= s.utf8_bytes_left <= 3 * n
    &&& 0 <= s.utf2_bytes_chars <= n
    &&& 0 <= s.utf3_bytes_chars <= n
    &&& 0 <= s.utf4_bytes_chars <= n
    &&& 0 <= s.sjis_bytes_left <= n
    &&& 0 <= s.sjis_katakana_chars <= n
    &&& 0 <= s.sjis_cur_katakana_word_length <= n
    &&& 0 <= s.sjis_cur_double_bytes_word_length <= n
    &&& 0 <= s.sjis_max_katakana_word_length <= n
    &&& 0 <= s.sjis_max_double_bytes_word_length <= n
    &&& 0 <= s.iso_high_other <= n
}

/// The scan in the form that the machine counts it in.
struct Counts {
    can_be_iso88591: bool,
    can_be_shift_jis: bool,
    can_be_utf8: bool,
    utf8_bytes_left: u128,
    utf2_bytes_chars: u128,
    utf3_bytes_chars: u128,
    utf4_bytes_chars: u128,
    sjis_bytes_left: u128,
    sjis_katakana_chars: u128,
    sjis_cur_katakana_word_length: u128,
    sjis_cur_double_bytes_word_length: u128,
    sjis_max_katakana_word_length: u128,
    sjis_max_double_bytes_word_length: u128,
    iso_high_other: u128,
}

impl Counts {
    spec fn view(&self) -> Scan {
        Scan {
            can_be_iso88591: self.can_be_iso88591,
            can_be_shift_jis: self.can_be_shift_jis,
            can_be_utf8: self.can_be_utf8,
            utf8_bytes_left: self.utf8_bytes_left as int,
            utf2_bytes_chars: self.utf2_bytes_chars as int,
            utf3_bytes_chars: self.utf3_bytes_chars as int,
            utf4_bytes_chars: self.utf4_bytes_chars as int,
            sjis_bytes_left: self.sjis_bytes_left as int,
            sjis_katakana_chars: self.sjis_katakana_chars as int,
            sjis_cur_katakana_word_length: self.sjis_cur_katakana_word_length as int,
            sjis_cur_double_bytes_word_length: self.sjis_cur_double_bytes_word_length as int,
            sjis_max_katakana_word_length: self.sjis_max_katakana_word_length as int,
            sjis_max_double_bytes_word_length: self.sjis_max_double_bytes_word_length as int,
            iso_high_other: self.iso_high_other as int,
        }
    }

    /// Takes one more byte into account.
    fn step(&mut self, value: u8, Ghost(n): Ghost<int>)
        requires
            scan_bounded(old(self)@, n),
            0 <= n < 0x1_0000_0000_0000_0000,
        ensures
            final(self)@ == scan_step(old(self)@, value),
            scan_bounded(final(self)@, n + 1),
    {
        if !(self.can_be_iso88591 || self.can_be_shift_jis || self.can_be_utf8) {
            return ;
        }
        // UTF-8 stuff
        if self.can_be_utf8 {
            if self.utf8_bytes_left > 0 {
                if value < 0x80 {
                    self.can_be_utf8 = false;
                } else {
                    self.utf8_bytes_left -= 1;
                }
            } else if value >= 0x80 {
                if value < 0xC0 {
                    self.can_be_utf8 = false;
                } else {
                    self.utf8_bytes_left += 1;
                    if value < 0xE0 {
                        self.utf2_bytes_chars += 1;
                    } else {
                        self.utf8_bytes_left += 1;
                        if value < 0xF0 {
                            self.utf3_bytes_chars += 1;
                        } else {
                            self.utf8_bytes_left += 1;
                            if value < 0xF8 {
                                self.utf4_bytes_chars += 1;
                            } else {
                                self.can_be_utf8 = false;
                            }
                        }
                    }
                }
            }
        }
        // ISO-8859-1 stuff
        if self.can_be_iso88591 {
            if value > 0x7F && value < 0xA0 {
                self.can_be_iso88591 = false;
            } else if value > 0x9F && (value < 0xC0 || value == 0xD7 || value == 0xF7) {
                self.iso_high_other += 1;
            }
        }
        // Shift_JIS stuff
        if self.can_be_shift_jis {
            if self.sjis_bytes_left > 0 {
                if value < 0x40 || value == 0x7F || value > 0xFC {
                    self.can_be_shift_jis = false;
                } else {
                    self.sjis_bytes_left -= 1;
                }
            } else if value == 0x80 || value == 0xA0 || value > 0xEF {
                self.can_be_shift_jis = false;
            } else if value > 0xA0 && value < 0xE0 {
                self.sjis_katakana_chars += 1;
                self.sjis_cur_double_bytes_word_length = 0;
                self.sjis_cur_katakana_word_length += 1;
                if self.sjis_cur_katakana_word_length > self.sjis_max_katakana_word_length {
                    self.sjis_max_katakana_word_length = self.sjis_cur_katakana_word_length;
                }
            } else if value > 0x7F {
                self.sjis_bytes_left += 1;
                self.sjis_cur_katakana_word_length = 0;
                self.sjis_cur_double_bytes_word_length += 1;
                if self.sjis_cur_double_bytes_word_length > self.sjis_max_double_bytes_word_length {
                    self.sjis_max_double_bytes_word_length = self.sjis_cur_double_bytes_word_length;
                }
            } else {
                self.sjis_cur_katakana_word_length = 0;
                self.sjis_cur_double_bytes_word_length = 0;
            }
        }
    }
}

/// Common string-related functions.
pub struct StringUtils {}

impl StringUtils {
    /// The character set that the bytes are guessed to be in: one of
    /// UTF-16, UTF-8, Shift_JIS and ISO-8859-1.
    pub fn guess_charset_of(bytes: &[u8]) -> (r: Charset)
        ensures
            r == guess(bytes@),
    {
        let length = bytes.len();
        // First try UTF-16, assuming anything with its BOM is UTF-16
        if length > 2 && bytes[0] == 0xFE && bytes[1] == 0xFF {
            return Charset::Utf16BE;
        }
        if length > 2 && bytes[0] == 0xFF && bytes[1] == 0xFE {
            return Charset::Utf16LE;
        }
        // For now, merely tries to distinguish ISO-8859-1, UTF-8 and Shift_JIS,
        // which should be by far the most common encodings.
        let mut counts = Counts {
            can_be_iso88591: true,
            can_be_shift_jis: true,
            can_be_utf8: true,
            utf8_bytes_left: 0,
            utf2_bytes_chars: 0,
            utf3_bytes_chars: 0,
            utf4_bytes_chars: 0,
            sjis_bytes_left: 0,
            sjis_katakana_chars: 0,
            sjis_cur_katakana_word_length: 0,
            sjis_cur_double_bytes_word_length: 0,
            sjis_max_katakana_word_length: 0,
            sjis_max_double_bytes_word_length: 0,
            iso_high_other: 0,
        };
        let utf8bom = length > 3 && bytes[0] == 0xEF && bytes[1] == 0xBB && bytes[2] == 0xBF;
        let mut i: usize = 0;
        while i < length
            invariant
                i <= length,
                length == bytes@.len(),
                counts@ == scan_of(bytes@, i as int),
                scan_bounded(counts@, i as int),
            decreases length - i,
        {
            counts.step(bytes[i], Ghost(i as int));
            i += 1;
        }
        let can_be_utf8 = counts.can_be_utf8 && counts.utf8_bytes_left == 0;
        let can_be_shift_jis = counts.can_be_shift_jis && counts.sjis_bytes_left == 0;
        // Easy -- if there is BOM or at least 1 valid not-single byte character
        // (and no evidence it can't be UTF-8), done
        if can_be_utf8 && (utf8bom || counts.utf2_bytes_chars + counts.utf3_bytes_chars
            + counts.utf4_bytes_chars > 0) {
            return Charset::Utf8;
        }
        // Easy -- if >= 3 valid consecutive not-ascii characters (and no
        // evidence it can't be), done
        if can_be_shift_jis && (counts.sjis_max_katakana_word_length >= 3
            || counts.sjis_max_double_bytes_word_length >= 3) {
            return Charset::ShiftJis;
        }
        // Distinguishing Shift_JIS and ISO-8859-1 can be a little tough for short words.
        if counts.can_be_iso88591 && can_be_shift_jis {
            return if (counts.sjis_max_katakana_word_length == 2 && counts.sjis_katakana_chars
                == 2) || counts.iso_high_other * 10 >= length as u128 {
                Charset::ShiftJis
            } else {
                Charset::Iso8859_1
            };
        }
        // Otherwise, try in order ISO-8859-1, Shift JIS, UTF-8
        if counts.can_be_iso88591 {
            return Charset::Iso8859_1;
        }
        if can_be_shift_jis {
            return Charset::ShiftJis;
        }
        Charset::Utf8
    }

    /// The character set that the bytes are taken to be in: the one that
    /// the hint names, if there is a hint, else the one guessed.  A hint
    /// that names no known encoding gives nothing.
    pub fn guessCharset(bytes: &[u8], hint: Option<&str>) -> (r: Option<Charset>)
        ensures
            match hint {
                Some(label) => match label_encoding_name(label@) {
                    Some(name) => r matches Some(Charset::Named(s)) && s@ == name,
                    None => r is None,
                },
                None => r == Some(guess(bytes@)),
            },
    {
        match hint {
            Some(label) => match encoding_name_for_label(label) {
                Some(name) => Some(Charset::Named(name)),
                None => None,
            },
            None => Some(Self::guess_charset_of(bytes)),
        }
    }

    /// The name by which a guessed or named character set goes: "SJIS",
    /// "UTF8" and "ISO8859_1" for the three common ones, else the
    /// canonical name of the encoding.
    pub fn name_of(charset: &Charset, shift_jis_name: &str, utf8_name: &str) -> (r: String)
        ensures
            r@ == charset_label(*charset, shift_jis_name@, utf8_name@),
    {
        match charset {
            Charset::ShiftJis => "SJIS".to_owned(),
            Charset::Utf8 => "UTF8".to_owned(),
            Charset::Iso8859_1 => "ISO8859_1".to_owned(),
            Charset::Utf16BE => "utf-16be".to_owned(),
            Charset::Utf16LE => "utf-16le".to_owned(),
            Charset::Named(name) => {
                if same_text(name.as_str(), shift_jis_name) {
                    "SJIS".to_owned()
                } else if same_text(name.as_str(), utf8_name) {
                    "UTF8".to_owned()
                } else if same_text(name.as_str(), "iso-8859-1") {
                    "ISO8859_1".to_owned()
                } else {
                    name.clone()
                }
            },
        }
    }

    /// The name of the encoding that the bytes are taken to be in; see
    /// `guessCharset` and `name_of`.  Nothing where the hint, or one of
    /// the labels "SJIS" and "utf-8", names no known encoding.
    pub fn guessEncoding(bytes: &[u8], hint: Option<&str>) -> (r: Option<String>)
        ensures
            match (
                label_encoding_name("SJIS"@),
                label_encoding_name("utf-8"@),
                match hint {
                    Some(label) => label_encoding_name(label@),
                    None => Some(Seq::<char>::empty()),
                },
            ) {
                (Some(sjis), Some(utf8), Some(named)) => r is Some && r->Some_0@ == (match hint {
                    Some(_) => named_label(named, sjis, utf8),
                    None => guess_label(guess(bytes@)),
                }),
                _ => r is None,
            },
    {
        let c = match Self::guessCharset(bytes, hint) {
            Some(c) => c,
            None => {
                return None;
            },
        };
        let sjis = match encoding_name_for_label("SJIS") {
            Some(name) => name,
            None => {
                return None;
            },
        };
        let utf8 = match encoding_name_for_label("utf-8") {
            Some(name) => name,
            None => {
                return None;
            },
        };
        Some(Self::name_of(&c, sjis.as_str(), utf8.as_str()))
    }
}

/// The name by which a guessed character set goes.
pub open spec fn guess_label(charset: Charset) -> Seq<char> {
    match charset {
        Charset::ShiftJis => "SJIS"@,
        Charset::Utf8 => "UTF8"@,
        Charset::Iso8859_1 => "ISO8859_1"@,
        Charset::Utf16BE => "utf-16be"@,
        Charset::Utf16LE => "utf-16le"@,
        Charset::Named(name) => name@,
    }
}

/// The name by which a named encoding goes, given the canonical names of
/// Shift_JIS and of UTF-8.
pub open spec fn named_label(name: Seq<char>, shift_jis_name: Seq<char>, utf8_name: Seq<char>) -> Seq<
    char,
> {
    if name == shift_jis_name {
        "SJIS"@
    } else if name == utf8_name {
        "UTF8"@
    } else if name == "iso-8859-1"@ {
        "ISO8859_1"@
    } else {
        name
    }
}

/// The name by which a character set goes.
pub open spec fn charset_label(charset: Charset, shift_jis_name: Seq<char>, utf8_name: Seq<char>) -> Seq<
    char,
> {
    match charset {
        Charset::Named(name) => named_label(name@, shift_jis_name, utf8_name),
        _ => guess_label(charset),
    }
}

} // verus!
