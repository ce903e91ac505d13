//! The character sets that an Extended Channel Interpretation can select.

use crate::exceptions::Exceptions;
use vstd::prelude::*;

verus! {

/// Whether two strings hold the same characters.
pub fn same_text(a: &str, b: &str) -> (r: bool)
    ensures
        r == (a@ == b@),
{
    let n = a.unicode_len();
    if n != b.unicode_len() {
        return false;
    }
    let mut i: usize = 0;
    while i < n
        invariant
            i <= n,
            n == a@.len(),
            n == b@.len(),
            a@.take(i as int) == b@.take(i as int),
        decreases n - i,
    {
        if a.get_char(i) != b.get_char(i) {
            return false;
        }
        i += 1;
        assert(a@.take(i as int) =~= a@.take(i - 1).push(a@[i - 1]));
        assert(b@.take(i as int) =~= b@.take(i - 1).push(b@[i - 1]));
    }
    assert(a@.take(n as int) =~= a@);
    assert(b@.take(n as int) =~= b@);
    true
}

/// A character set with an ECI designation, according to "Extended Channel
/// Interpretations" 5.3.1.1 of ISO 18004.
#[derive(Debug, PartialEq, Eq, Clone, Copy, Structural)]
pub enum CharacterSetECI {
    Cp437,
    ISO8859_1,
    ISO8859_2,
    ISO8859_3,
    ISO8859_4,
    ISO8859_5,
    ISO8859_6,
    ISO8859_7,
    ISO8859_8,
    ISO8859_9,
    ISO8859_10,
    ISO8859_11,
    ISO8859_13,
    ISO8859_14,
    ISO8859_15,
    ISO8859_16,
    SJIS,
    Cp1250,
    Cp1251,
    Cp1252,
    Cp1256,
    UnicodeBigUnmarked,
    UTF8,
    ASCII,
    Big5,
    GB18030,
    EUC_KR,
}

/// The ECI value that designates a character set on output.
pub open spec fn eci_value(cs: CharacterSetECI) -> u32 {
    match cs {
        CharacterSetECI::Cp437 => 0,
        CharacterSetECI::ISO8859_1 => 1,
        CharacterSetECI::ISO8859_2 => 4,
        CharacterSetECI::ISO8859_3 => 5,
        CharacterSetECI::ISO8859_4 => 6,
        CharacterSetECI::ISO8859_5 => 7,
        CharacterSetECI::ISO8859_6 => 8,
        CharacterSetECI::ISO8859_7 => 9,
        CharacterSetECI::ISO8859_8 => 10,
        CharacterSetECI::ISO8859_9 => 11,
        CharacterSetECI::ISO8859_10 => 12,
        CharacterSetECI::ISO8859_11 => 13,
        CharacterSetECI::ISO8859_13 => 15,
        CharacterSetECI::ISO8859_14 => 16,
        CharacterSetECI::ISO8859_15 => 17,
        CharacterSetECI::ISO8859_16 => 18,
        CharacterSetECI::SJIS => 20,
        CharacterSetECI::Cp1250 => 21,
        CharacterSetECI::Cp1251 => 22,
        CharacterSetECI::Cp1252 => 23,
        CharacterSetECI::Cp1256 => 24,
        CharacterSetECI::UnicodeBigUnmarked => 25,
        CharacterSetECI::UTF8 => 26,
        CharacterSetECI::ASCII => 27,
        CharacterSetECI::Big5 => 28,
        CharacterSetECI::GB18030 => 29,
        CharacterSetECI::EUC_KR => 30,
    }
}

/// The character set that an ECI value designates on input, if any.  The
/// values 2, 3 and 170 are second designations of a set that has another
/// value on output.
pub open spec fn eci_by_value(value: u32) -> Option<CharacterSetECI> {
    if value == 0 || value == 2 {
        Some(CharacterSetECI::Cp437)
    } else if value == 1 || value == 3 {
        Some(CharacterSetECI::ISO8859_1)
    } else if value == 4 {
        Some(CharacterSetECI::ISO8859_2)
    } else if value == 5 {
        Some(CharacterSetECI::ISO8859_3)
    } else if value == 6 {
        Some(CharacterSetECI::ISO8859_4)
    } else if value == 7 {
        Some(CharacterSetECI::ISO8859_5)
    } else if value == 8 {
        Some(CharacterSetECI::ISO8859_6)
    } else if value == 9 {
        Some(CharacterSetECI::ISO8859_7)
    } else if value == 10 {
        Some(CharacterSetECI::ISO8859_8)
    } else if value == 11 {
        Some(CharacterSetECI::ISO8859_9)
    } else if value == 12 {
        Some(CharacterSetECI::ISO8859_10)
    } else if value == 13 {
        Some(CharacterSetECI::ISO8859_11)
    } else if value == 15 {
        Some(CharacterSetECI::ISO8859_13)
    } else if value == 16 {
        Some(CharacterSetECI::ISO8859_14)
    } else if value == 17 {
        Some(CharacterSetECI::ISO8859_15)
    } else if value == 18 {
        Some(CharacterSetECI::ISO8859_16)
    } else if value == 20 {
        Some(CharacterSetECI::SJIS)
    } else if value == 21 {
        Some(CharacterSetECI::Cp1250)
    } else if value == 22 {
        Some(CharacterSetECI::Cp1251)
    } else if value == 23 {
        Some(CharacterSetECI::Cp1252)
    } else if value == 24 {
        Some(CharacterSetECI::Cp1256)
    } else if value == 25 {
        Some(CharacterSetECI::UnicodeBigUnmarked)
    } else if value == 26 {
        Some(CharacterSetECI::UTF8)
    } else if value == 27 || value == 170 {
        Some(CharacterSetECI::ASCII)
    } else if value == 28 {
        Some(CharacterSetECI::Big5)
    } else if value == 29 {
        Some(CharacterSetECI::GB18030)
    } else if value == 30 {
        Some(CharacterSetECI::EUC_KR)
    } else {
        None
    }
}

/// The name under which a character set is known to encoders and decoders.
pub open spec fn charset_name(cs: CharacterSetECI) -> Seq<char> {
    match cs {
        CharacterSetECI::Cp437 => "CP437"@,
        CharacterSetECI::ISO8859_1 => "ISO-8859-1"@,
        CharacterSetECI::ISO8859_2 => "ISO-8859-2"@,
        CharacterSetECI::ISO8859_3 => "ISO-8859-3"@,
        CharacterSetECI::ISO8859_4 => "ISO-8859-4"@,
        CharacterSetECI::ISO8859_5 => "ISO-8859-5"@,
        CharacterSetECI::ISO8859_6 => "ISO-8859-6"@,
        CharacterSetECI::ISO8859_7 => "ISO-8859-7"@,
        CharacterSetECI::ISO8859_8 => "ISO-8859-8"@,
        CharacterSetECI::ISO8859_9 => "ISO-8859-9"@,
        CharacterSetECI::ISO8859_10 => "ISO-8859-10"@,
        CharacterSetECI::ISO8859_11 => "ISO-8859-11"@,
        CharacterSetECI::ISO8859_13 => "ISO-8859-13"@,
        CharacterSetECI::ISO8859_14 => "ISO-8859-14"@,
        CharacterSetECI::ISO8859_15 => "ISO-8859-15"@,
        CharacterSetECI::ISO8859_16 => "ISO-8859-16"@,
        CharacterSetECI::SJIS => "Shift_JIS"@,
        CharacterSetECI::Cp1250 => "windows-1250"@,
        CharacterSetECI::Cp1251 => "windows-1251"@,
        CharacterSetECI::Cp1252 => "windows-1252"@,
        CharacterSetECI::Cp1256 => "windows-1256"@,
        CharacterSetECI::UnicodeBigUnmarked => "UTF-16BE"@,
        CharacterSetECI::UTF8 => "UTF-8"@,
        CharacterSetECI::ASCII => "US-ASCII"@,
        CharacterSetECI::Big5 => "Big5"@,
        CharacterSetECI::GB18030 => "GB2312"@,
        CharacterSetECI::EUC_KR => "EUC-KR"@,
    }
}

/// The character set of the `index`-th row of the registry.
pub open spec fn registry_entry(index: int) -> CharacterSetECI {
    if index == 0 {
        CharacterSetECI::Cp437
    } else if index == 1 {
        CharacterSetECI::ISO8859_1
    } else if index == 2 {
        CharacterSetECI::ISO8859_2
    } else if index == 3 {
        CharacterSetECI::ISO8859_3
    } else if index == 4 {
        CharacterSetECI::ISO8859_4
    } else if index == 5 {
        CharacterSetECI::ISO8859_5
    } else if index == 6 {
        CharacterSetECI::ISO8859_6
    } else if index == 7 {
        CharacterSetECI::ISO8859_7
    } else if index == 8 {
        CharacterSetECI::ISO8859_8
    } else if index == 9 {
        CharacterSetECI::ISO8859_9
    } else if index == 10 {
        CharacterSetECI::ISO8859_10
    } else if index == 11 {
        CharacterSetECI::ISO8859_11
    } else if index == 12 {
        CharacterSetECI::ISO8859_13
    } else if index == 13 {
        CharacterSetECI::ISO8859_14
    } else if index == 14 {
        CharacterSetECI::ISO8859_15
    } else if index == 15 {
        CharacterSetECI::ISO8859_16
    } else if index == 16 {
        CharacterSetECI::SJIS
    } else if index == 17 {
        CharacterSetECI::Cp1250
    } else if index == 18 {
        CharacterSetECI::Cp1251
    } else if index == 19 {
        CharacterSetECI::Cp1252
    } else if index == 20 {
        CharacterSetECI::Cp1256
    } else if index == 21 {
        CharacterSetECI::UnicodeBigUnmarked
    } else if index == 22 {
        CharacterSetECI::UTF8
    } else if index == 23 {
        CharacterSetECI::ASCII
    } else if index == 24 {
        CharacterSetECI::Big5
    } else if index == 25 {
        CharacterSetECI::GB18030
    } else {
        CharacterSetECI::EUC_KR
    }
}

/// The number of rows of the registry.
pub const REGISTRY_LEN: usize = 27;

/// The first row at or after `from` whose name is `name`, if any.
pub open spec fn find_by_name(name: Seq<char>, from: int) -> Option<CharacterSetECI>
    decreases REGISTRY_LEN - from,
{
    if from < 0 || from >= REGISTRY_LEN {
        None
    } else if charset_name(registry_entry(from)) == name {
        Some(registry_entry(from))
    } else {
        find_by_name(name, from + 1)
    }
}

/// The name by which an encoder or decoder calls the encoding of a
/// character set.
pub open spec fn encoding_name(cs: CharacterSetECI) -> Seq<char> {
    match cs {
        CharacterSetECI::Cp437 => "CP437"@,
        CharacterSetECI::ISO8859_1 => "iso-8859-1"@,
        CharacterSetECI::ISO8859_2 => "iso-8859-2"@,
        CharacterSetECI::ISO8859_3 => "iso-8859-3"@,
        CharacterSetECI::ISO8859_4 => "iso-8859-4"@,
        CharacterSetECI::ISO8859_5 => "iso-8859-5"@,
        CharacterSetECI::ISO8859_6 => "iso-8859-6"@,
        CharacterSetECI::ISO8859_7 => "iso-8859-7"@,
        CharacterSetECI::ISO8859_8 => "iso-8859-8"@,
        CharacterSetECI::ISO8859_9 => "iso-8859-9"@,
        CharacterSetECI::ISO8859_10 => "iso-8859-10"@,
        CharacterSetECI::ISO8859_11 => "iso-8859-11"@,
        CharacterSetECI::ISO8859_13 => "iso-8859-13"@,
        CharacterSetECI::ISO8859_14 => "iso-8859-14"@,
        CharacterSetECI::ISO8859_15 => "iso-8859-15"@,
        CharacterSetECI::ISO8859_16 => "iso-8859-16"@,
        CharacterSetECI::SJIS => "shift_jis"@,
        CharacterSetECI::Cp1250 => "windows-1250"@,
        CharacterSetECI::Cp1251 => "windows-1251"@,
        CharacterSetECI::Cp1252 => "windows-1252"@,
        CharacterSetECI::Cp1256 => "windows-1256"@,
        CharacterSetECI::UnicodeBigUnmarked => "utf-16be"@,
        CharacterSetECI::UTF8 => "utf-8"@,
        CharacterSetECI::ASCII => "us-ascii"@,
        CharacterSetECI::Big5 => "big5"@,
        CharacterSetECI::GB18030 => "gb2312"@,
        CharacterSetECI::EUC_KR => "euc-kr"@,
    }
}

/// The first row at or after `from` whose encoding goes by `name`, if any.
pub open spec fn find_by_encoding_name(name: Seq<char>, from: int) -> Option<CharacterSetECI>
    decreases REGISTRY_LEN - from,
{
    if from < 0 || from >= REGISTRY_LEN {
        None
    } else if encoding_name(registry_entry(from)) == name {
        Some(registry_entry(from))
    } else {
        find_by_encoding_name(name, from + 1)
    }
}

/// The character set that goes by `name`, if any.
pub open spec fn eci_by_name(name: Seq<char>) -> Option<CharacterSetECI> {
    find_by_name(name, 0)
}

impl CharacterSetECI {
    /// The `index`-th row of the registry.
    pub fn entry(index: usize) -> (r: CharacterSetECI)
        requires
            index < REGISTRY_LEN,
        ensures
            r == registry_entry(index as int),
    {
        if index == 0 {
            CharacterSetECI::Cp437
        } else if index == 1 {
            CharacterSetECI::ISO8859_1
        } else if index == 2 {
            CharacterSetECI::ISO8859_2
        } else if index == 3 {
            CharacterSetECI::ISO8859_3
        } else if index == 4 {
            CharacterSetECI::ISO8859_4
        } else if index == 5 {
            CharacterSetECI::ISO8859_5
        } else if index == 6 {
            CharacterSetECI::ISO8859_6
        } else if index == 7 {
            CharacterSetECI::ISO8859_7
        } else if index == 8 {
            CharacterSetECI::ISO8859_8
        } else if index == 9 {
            CharacterSetECI::ISO8859_9
        } else if index == 10 {
            CharacterSetECI::ISO8859_10
        } else if index == 11 {
            CharacterSetECI::ISO8859_11
        } else if index == 12 {
            CharacterSetECI::ISO8859_13
        } else if index == 13 {
            CharacterSetECI::ISO8859_14
        } else if index == 14 {
            CharacterSetECI::ISO8859_15
        } else if index == 15 {
            CharacterSetECI::ISO8859_16
        } else if index == 16 {
            CharacterSetECI::SJIS
        } else if index == 17 {
            CharacterSetECI::Cp1250
        } else if index == 18 {
            CharacterSetECI::Cp1251
        } else if index == 19 {
            CharacterSetECI::Cp1252
        } else if index == 20 {
            CharacterSetECI::Cp1256
        } else if index == 21 {
            CharacterSetECI::UnicodeBigUnmarked
        } else if index == 22 {
            CharacterSetECI::UTF8
        } else if index == 23 {
            CharacterSetECI::ASCII
        } else if index == 24 {
            CharacterSetECI::Big5
        } else if index == 25 {
            CharacterSetECI::GB18030
        } else {
            CharacterSetECI::EUC_KR
        }
    }

    /// The ECI value of this character set.
    pub fn getValueSelf(&self) -> (r: u32)
        ensures
            r == eci_value(*self),
    {
        Self::getValue(self)
    }

    /// The ECI value of a character set.
    pub fn getValue(cs_eci: &CharacterSetECI) -> (r: u32)
        ensures
            r == eci_value(*cs_eci),
    {
        match cs_eci {
            CharacterSetECI::Cp437 => 0,
            CharacterSetECI::ISO8859_1 => 1,
            CharacterSetECI::ISO8859_2 => 4,
            CharacterSetECI::ISO8859_3 => 5,
            CharacterSetECI::ISO8859_4 => 6,
            CharacterSetECI::ISO8859_5 => 7,
            CharacterSetECI::ISO8859_6 => 8,
            CharacterSetECI::ISO8859_7 => 9,
            CharacterSetECI::ISO8859_8 => 10,
            CharacterSetECI::ISO8859_9 => 11,
            CharacterSetECI::ISO8859_10 => 12,
            CharacterSetECI::ISO8859_11 => 13,
            CharacterSetECI::ISO8859_13 => 15,
            CharacterSetECI::ISO8859_14 => 16,
            CharacterSetECI::ISO8859_15 => 17,
            CharacterSetECI::ISO8859_16 => 18,
            CharacterSetECI::SJIS => 20,
            CharacterSetECI::Cp1250 => 21,
            CharacterSetECI::Cp1251 => 22,
            CharacterSetECI::Cp1252 => 23,
            CharacterSetECI::Cp1256 => 24,
            CharacterSetECI::UnicodeBigUnmarked => 25,
            CharacterSetECI::UTF8 => 26,
            CharacterSetECI::ASCII => 27,
            CharacterSetECI::Big5 => 28,
            CharacterSetECI::GB18030 => 29,
            CharacterSetECI::EUC_KR => 30,
        }
    }

    /// The name under which encoders and decoders know a character set.
    pub fn getCharset(cs_eci: &CharacterSetECI) -> (r: &'static str)
        ensures
            r@ == charset_name(*cs_eci),
    {
        match cs_eci {
            CharacterSetECI::Cp437 => "CP437",
            CharacterSetECI::ISO8859_1 => "ISO-8859-1",
            CharacterSetECI::ISO8859_2 => "ISO-8859-2",
            CharacterSetECI::ISO8859_3 => "ISO-8859-3",
            CharacterSetECI::ISO8859_4 => "ISO-8859-4",
            CharacterSetECI::ISO8859_5 => "ISO-8859-5",
            CharacterSetECI::ISO8859_6 => "ISO-8859-6",
            CharacterSetECI::ISO8859_7 => "ISO-8859-7",
            CharacterSetECI::ISO8859_8 => "ISO-8859-8",
            CharacterSetECI::ISO8859_9 => "ISO-8859-9",
            CharacterSetECI::ISO8859_10 => "ISO-8859-10",
            CharacterSetECI::ISO8859_11 => "ISO-8859-11",
            CharacterSetECI::ISO8859_13 => "ISO-8859-13",
            CharacterSetECI::ISO8859_14 => "ISO-8859-14",
            CharacterSetECI::ISO8859_15 => "ISO-8859-15",
            CharacterSetECI::ISO8859_16 => "ISO-8859-16",
            CharacterSetECI::SJIS => "Shift_JIS",
            CharacterSetECI::Cp1250 => "windows-1250",
            CharacterSetECI::Cp1251 => "windows-1251",
            CharacterSetECI::Cp1252 => "windows-1252",
            CharacterSetECI::Cp1256 => "windows-1256",
            CharacterSetECI::UnicodeBigUnmarked => "UTF-16BE",
            CharacterSetECI::UTF8 => "UTF-8",
            CharacterSetECI::ASCII => "US-ASCII",
            CharacterSetECI::Big5 => "Big5",
            CharacterSetECI::GB18030 => "GB2312",
            CharacterSetECI::EUC_KR => "EUC-KR",
        }
    }

    /// The name by which an encoder or decoder calls the encoding of a
    /// character set.
    pub fn getEncodingName(cs_eci: &CharacterSetECI) -> (r: &'static str)
        ensures
            r@ == encoding_name(*cs_eci),
    {
        match cs_eci {
            CharacterSetECI::Cp437 => "CP437",
            CharacterSetECI::ISO8859_1 => "iso-8859-1",
            CharacterSetECI::ISO8859_2 => "iso-8859-2",
            CharacterSetECI::ISO8859_3 => "iso-8859-3",
            CharacterSetECI::ISO8859_4 => "iso-8859-4",
            CharacterSetECI::ISO8859_5 => "iso-8859-5",
            CharacterSetECI::ISO8859_6 => "iso-8859-6",
            CharacterSetECI::ISO8859_7 => "iso-8859-7",
            CharacterSetECI::ISO8859_8 => "iso-8859-8",
            CharacterSetECI::ISO8859_9 => "iso-8859-9",
            CharacterSetECI::ISO8859_10 => "iso-8859-10",
            CharacterSetECI::ISO8859_11 => "iso-8859-11",
            CharacterSetECI::ISO8859_13 => "iso-8859-13",
            CharacterSetECI::ISO8859_14 => "iso-8859-14",
            CharacterSetECI::ISO8859_15 => "iso-8859-15",
            CharacterSetECI::ISO8859_16 => "iso-8859-16",
            CharacterSetECI::SJIS => "shift_jis",
            CharacterSetECI::Cp1250 => "windows-1250",
            CharacterSetECI::Cp1251 => "windows-1251",
            CharacterSetECI::Cp1252 => "windows-1252",
            CharacterSetECI::Cp1256 => "windows-1256",
            CharacterSetECI::UnicodeBigUnmarked => "utf-16be",
            CharacterSetECI::UTF8 => "utf-8",
            CharacterSetECI::ASCII => "us-ascii",
            CharacterSetECI::Big5 => "big5",
            CharacterSetECI::GB18030 => "gb2312",
            CharacterSetECI::EUC_KR => "euc-kr",
        }
    }

    /// The character set whose encoding goes by `charset_name`, if any.
    pub fn getCharacterSetECI(charset_name: &str) -> (r: Option<CharacterSetECI>)
        ensures
            r == find_by_encoding_name(charset_name@, 0),
    {
        let mut i: usize = 0;
        while i < REGISTRY_LEN
            invariant
                i <= REGISTRY_LEN,
                find_by_encoding_name(charset_name@, 0) == find_by_encoding_name(
                    charset_name@,
                    i as int,
                ),
            decreases REGISTRY_LEN - i,
        {
            let cs = Self::entry(i);
            if same_text(Self::getEncodingName(&cs), charset_name) {
                return Some(cs);
            }
            i += 1;
        }
        None
    }

    /// The character set that an ECI value designates.
    pub fn getCharacterSetECIByValue(value: u32) -> (r: Result<CharacterSetECI, Exceptions>)
        ensures
            match eci_by_value(value) {
                Some(cs) => r == Ok::<CharacterSetECI, Exceptions>(cs),
                None => r == Err::<CharacterSetECI, Exceptions>(Exceptions::NotFoundException),
            },
    {
        if value == 0 || value == 2 {
            Ok(CharacterSetECI::Cp437)
        } else if value == 1 || value == 3 {
            Ok(CharacterSetECI::ISO8859_1)
        } else if value >= 4 && value <= 13 {
            Ok(Self::entry((value - 2) as usize))
        } else if value >= 15 && value <= 18 {
            Ok(Self::entry((value - 3) as usize))
        } else if value >= 20 && value <= 30 {
            Ok(Self::entry((value - 4) as usize))
        } else if value == 170 {
            Ok(CharacterSetECI::ASCII)
        } else {
            Err(Exceptions::NotFoundException)
        }
    }

    /// The character set that goes by `name`, if any.
    pub fn getCharacterSetECIByName(name: &str) -> (r: Option<CharacterSetECI>)
        ensures
            r == eci_by_name(name@),
    {
        let mut i: usize = 0;
        while i < REGISTRY_LEN
            invariant
                i <= REGISTRY_LEN,
                eci_by_name(name@) == find_by_name(name@, i as int),
            decreases REGISTRY_LEN - i,
        {
            let cs = Self::entry(i);
            if same_text(Self::getCharset(&cs), name) {
                return Some(cs);
            }
            i += 1;
        }
        None
    }
}

/// Every character set is designated by the value that it is written with.
pub proof fn lemma_value_designates_its_set(cs: CharacterSetECI)
    ensures
        eci_by_value(eci_value(cs)) == Some(cs),
{
}

/// Looking up a recognized value and writing the set out again gives the
/// value back, but for the three second designations.
pub proof fn lemma_recognized_value_round_trips(value: u32)
    requires
        eci_by_value(value) is Some,
        value != 2,
        value != 3,
        value != 170,
    ensures
        eci_value(eci_by_value(value)->Some_0) == value,
{
}

/// A second designation is written out with the first value of its set.
pub proof fn lemma_second_designations()
    ensures
        eci_value(eci_by_value(2)->Some_0) == 0,
        eci_value(eci_by_value(3)->Some_0) == 1,
        eci_value(eci_by_value(170)->Some_0) == 27,
{
}

} // verus!
