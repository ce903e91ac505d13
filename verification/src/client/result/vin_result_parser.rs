//! Detects a result that is likely a vehicle identification number.

use crate::exceptions::Exceptions;
use vstd::prelude::*;

verus! {

/// The formats of barcodes.
#[derive(Debug, Clone, Copy, PartialEq, Eq, Structural)]
pub enum BarcodeFormat {
    AZTEC,
    CODABAR,
    CODE_39,
    CODE_93,
    CODE_128,
    DATA_MATRIX,
    EAN_8,
    EAN_13,
    ITF,
    MAXICODE,
    PDF_417,
    QR_CODE,
    RSS_14,
    RSS_EXPANDED,
    UPC_A,
    UPC_E,
    UPC_EAN_EXTENSION,
}

/// A vehicle identification number and its parts.
#[derive(Debug, Clone, PartialEq, Eq)]
pub struct VINParsedRXingResult {
    pub vin: String,
    pub world_manufacturer_id: String,
    pub vehicle_descriptor_section: String,
    pub vehicle_identifier_section: String,
    pub country_code: String,
    pub vehicle_attributes: String,
    pub model_year: u32,
    pub plant_code: char,
    pub sequential_number: String,
}

/// The text that the regular expression engine gives for `text` with
/// every match of `pattern` replaced by `replacement`; nothing where the
/// pattern is no regular expression.
pub uninterp spec fn regex_replacement(
    pattern: Seq<char>,
    text: Seq<char>,
    replacement: Seq<char>,
) -> Option<Seq<char>>;

/// Whether the regular expression engine finds a match of `pattern`
/// anywhere in `text`; nothing where the pattern is no regular expression.
pub uninterp spec fn regex_found(pattern: Seq<char>, text: Seq<char>) -> Option<bool>;

/// The text without its leading and trailing white space, as the standard
/// library trims it.
pub uninterp spec fn trimmed(text: Seq<char>) -> Seq<char>;

/// Calls `regex::Regex::new` and, on the expression compiled,
/// `Regex::replace_all`.  The result depends on the arguments alone.
#[verifier::external_body]
fn regex_replace_all(pattern: &str, text: &str, replacement: &str) -> (r: Option<String>)
    ensures
        r is Some <==> regex_replacement(pattern@, text@, replacement@) is Some,
        r matches Some(s) ==> regex_replacement(pattern@, text@, replacement@) == Some(s@),
{
    let compiled = regex::Regex::new(pattern).ok()?;
    Some(compiled.replace_all(text, replacement).into_owned())
}

/// Calls `regex::Regex::new` and, on the expression compiled,
/// `Regex::find`.  The result depends on the arguments alone.
#[verifier::external_body]
fn regex_find(pattern: &str, text: &str) -> (r: Option<bool>)
    ensures
        r == regex_found(pattern@, text@),
{
    let compiled = regex::Regex::new(pattern).ok()?;
    Some(compiled.find(text).is_some())
}

/// Calls `str::trim`.
#[verifier::external_body]
fn trim_text(text: &str) -> (r: String)
    ensures
        r@ == trimmed(text@),
{
    text.trim().to_owned()
}

/// The expression for the letters that a VIN never holds.
pub const IOQ: &'static str = "[IOQ]";

/// The expression for seventeen capital letters and digits.
pub const AZ09: &'static str = "[A-Z0-9]{17}";

/// The value of a character of a VIN in the checksum.
pub open spec fn char_value(c: char) -> Option<int> {
    if 'A' <= c <= 'I' {
        Some(c as int - 'A' as int + 1)
    } else if 'J' <= c <= 'R' {
        Some(c as int - 'J' as int + 1)
    } else if 'S' <= c <= 'Z' {
        Some(c as int - 'S' as int + 2)
    } else if '0' <= c <= '9' {
        Some(c as int - '0' as int)
    } else {
        None
    }
}

/// The weight of a position of a VIN in the checksum; positions count from 1.
pub open spec fn position_weight(position: int) -> Option<int> {
    if 1 <= position <= 7 {
        Some(9 - position)
    } else if position == 8 {
        Some(10)
    } else if position == 9 {
        Some(0)
    } else if 10 <= position <= 17 {
        Some(19 - position)
    } else {
        None
    }
}

/// The check character for a remainder of the weighted sum.
pub open spec fn check_character(remainder: int) -> Option<char> {
    if 0 <= remainder <= 9 {
        Some(('0' as u8 + remainder) as u8 as char)
    } else if remainder == 10 {
        Some('X')
    } else {
        None
    }
}

/// The model year that a character stands for.
pub open spec fn year_of(c: char) -> Option<int> {
    if 'E' <= c <= 'H' {
        Some(c as int - 'E' as int + 1984)
    } else if 'J' <= c <= 'N' {
        Some(c as int - 'J' as int + 1988)
    } else if c == 'P' {
        Some(1993)
    } else if 'R' <= c <= 'T' {
        Some(c as int - 'R' as int + 1994)
    } else if 'V' <= c <= 'Y' {
        Some(c as int - 'V' as int + 1997)
    } else if '1' <= c <= '9' {
        Some(c as int - '1' as int + 2001)
    } else if 'A' <= c <= 'D' {
        Some(c as int - 'A' as int + 2010)
    } else {
        None
    }
}

/// The weighted sum of the first `n` characters, where each has a value
/// and its position a weight.
pub open spec fn weighted_sum(vin: Seq<char>, n: int) -> Option<int>
    decreases n,
{
    if n <= 0 {
        Some(0)
    } else {
        match (weighted_sum(vin, n - 1), position_weight(n), char_value(vin[n - 1])) {
            (Some(sum), Some(weight), Some(value)) => Some(sum + weight * value),
            _ => None,
        }
    }
}

/// Whether the ninth character of a VIN is the check character of its
/// weighted sum; nothing for a text that is no VIN at all.
pub open spec fn checksum_holds(vin: Seq<char>) -> Option<bool> {
    if vin.len() < 9 {
        None
    } else {
        match weighted_sum(vin, vin.len() as int) {
            Some(sum) => match check_character(sum % 11) {
                Some(expected) => Some(vin[8] == expected),
                None => None,
            },
            None => None,
        }
    }
}

/// The country of a world manufacturer identifier, where it is known.
pub open spec fn country_of(wmi: Seq<char>) -> Option<Seq<char>> {
    if wmi.len() < 2 {
        None
    } else {
        let c1 = wmi[0];
        let c2 = wmi[1];
        if c1 == '1' || c1 == '4' || c1 == '5' {
            Some("US"@)
        } else if c1 == '2' {
            Some("CA"@)
        } else if c1 == '3' && 'A' <= c2 <= 'W' {
            Some("MX"@)
        } else if c1 == '9' && (('A' <= c2 <= 'E') || ('3' <= c2 <= '9')) {
            Some("BR"@)
        } else if c1 == 'J' && 'A' <= c2 <= 'T' {
            Some("JP"@)
        } else if c1 == 'K' && 'L' <= c2 <= 'R' {
            Some("KO"@)
        } else if c1 == 'L' {
            Some("CN"@)
        } else if c1 == 'M' && 'A' <= c2 <= 'E' {
            Some("IN"@)
        } else if c1 == 'S' && 'A' <= c2 <= 'M' {
            Some("UK"@)
        } else if c1 == 'S' && 'N' <= c2 <= 'T' {
            Some("DE"@)
        } else if c1 == 'V' && 'F' <= c2 <= 'R' {
            Some("FR"@)
        } else if c1 == 'V' && 'S' <= c2 <= 'W' {
            Some("ES"@)
        } else if c1 == 'W' {
            Some("DE"@)
        } else if c1 == 'X' && (c2 == '0' || ('3' <= c2 <= '9')) {
            Some("RU"@)
        } else if c1 == 'Z' && 'A' <= c2 <= 'R' {
            Some("IT"@)
        } else {
            None
        }
    }
}

/// A text whose checksum holds has seventeen characters.
pub proof fn lemma_weighted_sum_length(vin: Seq<char>, n: int)
    requires
        weighted_sum(vin, n) is Some,
    ensures
        n <= 17,
        0 <= weighted_sum(vin, n)->Some_0 <= 330 * n || n <= 0,
    decreases n,
{
    if n > 0 {
        lemma_weighted_sum_length(vin, n - 1);
        let w = position_weight(n)->Some_0;
        let v = char_value(vin[n - 1])->Some_0;
        assert(0 <= w * v <= 330) by (nonlinear_arith)
            requires
                0 <= w <= 10,
                0 <= v <= 33,
        ;
    }
}

/// Whether the VIN at hand has the parts that a vehicle identification
/// number must have: a checksum that holds, and a model year.
pub open spec fn is_vin(raw_text: Seq<char>) -> bool {
    checksum_holds(raw_text) == Some(true) && raw_text.len() == 17 && year_of(raw_text[9]) is Some
}

/// The value of a character of a VIN in the checksum.
pub fn vin_char_value(c: char) -> (r: Result<u32, Exceptions>)
    ensures
        match char_value(c) {
            Some(v) => r == Ok::<u32, Exceptions>(v as u32) && v <= 33,
            None => r == Err::<u32, Exceptions>(Exceptions::IllegalArgumentException),
        },
{
    if c >= 'A' && c <= 'I' {
        Ok((c as u32 - 'A' as u32) + 1)
    } else if c >= 'J' && c <= 'R' {
        Ok((c as u32 - 'J' as u32) + 1)
    } else if c >= 'S' && c <= 'Z' {
        Ok((c as u32 - 'S' as u32) + 2)
    } else if c >= '0' && c <= '9' {
        Ok(c as u32 - '0' as u32)
    } else {
        Err(Exceptions::IllegalArgumentException)
    }
}

/// The weight of a position of a VIN in the checksum.
pub fn vin_position_weight(position: usize) -> (r: Result<usize, Exceptions>)
    ensures
        match position_weight(position as int) {
            Some(w) => r == Ok::<usize, Exceptions>(w as usize) && w <= 10,
            None => r == Err::<usize, Exceptions>(Exceptions::IllegalArgumentException),
        },
{
    if position >= 1 && position <= 7 {
        Ok(9 - position)
    } else if position == 8 {
        Ok(10)
    } else if position == 9 {
        Ok(0)
    } else if position >= 10 && position <= 17 {
        Ok(19 - position)
    } else {
        Err(Exceptions::IllegalArgumentException)
    }
}

/// The check character for a remainder.
pub fn check_char(remainder: u8) -> (r: Result<char, Exceptions>)
    ensures
        match check_character(remainder as int) {
            Some(c) => r == Ok::<char, Exceptions>(c),
            None => r == Err::<char, Exceptions>(Exceptions::IllegalArgumentException),
        },
{
    if remainder <= 9 {
        Ok((48u8 + remainder) as char)
    } else if remainder == 10 {
        Ok('X')
    } else {
        Err(Exceptions::IllegalArgumentException)
    }
}

/// The model year that a character stands for.
pub fn model_year(c: char) -> (r: Result<u32, Exceptions>)
    ensures
        match year_of(c) {
            Some(y) => r == Ok::<u32, Exceptions>(y as u32),
            None => r == Err::<u32, Exceptions>(Exceptions::IllegalArgumentException),
        },
{
    if c >= 'E' && c <= 'H' {
        Ok((c as u32 - 'E' as u32) + 1984)
    } else if c >= 'J' && c <= 'N' {
        Ok((c as u32 - 'J' as u32) + 1988)
    } else if c == 'P' {
        Ok(1993)
    } else if c >= 'R' && c <= 'T' {
        Ok((c as u32 - 'R' as u32) + 1994)
    } else if c >= 'V' && c <= 'Y' {
        Ok((c as u32 - 'V' as u32) + 1997)
    } else if c >= '1' && c <= '9' {
        Ok((c as u32 - '1' as u32) + 2001)
    } else if c >= 'A' && c <= 'D' {
        Ok((c as u32 - 'A' as u32) + 2010)
    } else {
        Err(Exceptions::IllegalArgumentException)
    }
}

/// The country of a world manufacturer identifier, where it is known.
pub fn country_code(wmi: &str) -> (r: Option<&'static str>)
    ensures
        match country_of(wmi@) {
            Some(name) => r is Some && r->Some_0@ == name,
            None => r is None,
        },
{
    if wmi.unicode_len() < 2 {
        return None;
    }
    let c1 = wmi.get_char(0);
    let c2 = wmi.get_char(1);
    if c1 == '1' || c1 == '4' || c1 == '5' {
        Some("US")
    } else if c1 == '2' {
        Some("CA")
    } else if c1 == '3' && c2 >= 'A' && c2 <= 'W' {
        Some("MX")
    } else if c1 == '9' && ((c2 >= 'A' && c2 <= 'E') || (c2 >= '3' && c2 <= '9')) {
        Some("BR")
    } else if c1 == 'J' && c2 >= 'A' && c2 <= 'T' {
        Some("JP")
    } else if c1 == 'K' && c2 >= 'L' && c2 <= 'R' {
        Some("KO")
    } else if c1 == 'L' {
        Some("CN")
    } else if c1 == 'M' && c2 >= 'A' && c2 <= 'E' {
        Some("IN")
    } else if c1 == 'S' && c2 >= 'A' && c2 <= 'M' {
        Some("UK")
    } else if c1 == 'S' && c2 >= 'N' && c2 <= 'T' {
        Some("DE")
    } else if c1 == 'V' && c2 >= 'F' && c2 <= 'R' {
        Some("FR")
    } else if c1 == 'V' && c2 >= 'S' && c2 <= 'W' {
        Some("ES")
    } else if c1 == 'W' {
        Some("DE")
    } else if c1 == 'X' && (c2 == '0' || (c2 >= '3' && c2 <= '9')) {
        Some("RU")
    } else if c1 == 'Z' && c2 >= 'A' && c2 <= 'R' {
        Some("IT")
    } else {
        None
    }
}

/// Whether the ninth character of a VIN is the check character of its
/// weighted sum.  A text that is shorter than nine or longer than
/// seventeen characters, or holds a character without a value, is refused.
pub fn check_checksum(vin: &str) -> (r: Result<bool, Exceptions>)
    ensures
        match checksum_holds(vin@) {
            Some(b) => r == Ok::<bool, Exceptions>(b),
            None => r == Err::<bool, Exceptions>(Exceptions::IllegalArgumentException),
        },
        r is Ok ==> 9 <= vin@.len() <= 17,
{
    let n = vin.unicode_len();
    let mut sum: u32 = 0;
    let mut i: usize = 0;
    while i < n
        invariant
            i <= n,
            n == vin@.len(),
            weighted_sum(vin@, i as int) == Some(sum as int),
            i <= 17,
            sum <= 330 * i,
        decreases n - i,
    {
        let weight = match vin_position_weight(i + 1) {
            Ok(w) => w,
            Err(e) => {
                proof {
                    lemma_sum_fails_on(vin@, i + 1, n as int);
                }
                return Err(e);
            },
        };
        let value = match vin_char_value(vin.get_char(i)) {
            Ok(v) => v,
            Err(e) => {
                proof {
                    lemma_sum_fails_on(vin@, i + 1, n as int);
                }
                return Err(e);
            },
        };
        assert(weight * value <= 330) by (nonlinear_arith)
            requires
                0 <= weight <= 10,
                0 <= value <= 33,
        ;
        sum += weight as u32 * value;
        i += 1;
    }
    if n < 9 {
        return Err(Exceptions::IllegalArgumentException);
    }
    let check_to_char = vin.get_char(8);
    match check_char((sum % 11) as u8) {
        Ok(expected) => Ok(check_to_char == expected),
        Err(e) => Err(e),
    }
}

/// Once the weighted sum fails it fails for every longer prefix.
pub proof fn lemma_sum_fails_on(vin: Seq<char>, k: int, n: int)
    requires
        weighted_sum(vin, k) is None,
        k <= n,
    ensures
        weighted_sum(vin, n) is None,
    decreases n - k,
{
    if k < n {
        lemma_sum_fails_on(vin, k, n - 1);
    }
}

/// Whether `v` holds the parts of the VIN `raw_text`.
pub open spec fn holds_parts_of(v: VINParsedRXingResult, raw_text: Seq<char>) -> bool {
    &&& v.vin@ == raw_text
    &&& v.world_manufacturer_id@ == raw_text.subrange(0, 3)
    &&& v.vehicle_descriptor_section@ == raw_text.subrange(3, 9)
    &&& v.vehicle_identifier_section@ == raw_text.subrange(9, 17)
    &&& v.country_code@ == (match country_of(raw_text.subrange(0, 3)) {
        Some(name) => name,
        None => Seq::<char>::empty(),
    })
    &&& v.vehicle_attributes@ == raw_text.subrange(3, 8)
    &&& Some(v.model_year as int) == year_of(raw_text[9])
    &&& v.plant_code == raw_text[10]
    &&& v.sequential_number@ == raw_text.subrange(11, 17)
}

/// The parts of a cleaned text that is a VIN, else nothing.
pub fn parse_cleaned(raw_text: &str) -> (r: Option<VINParsedRXingResult>)
    ensures
        r is Some <==> is_vin(raw_text@),
        r matches Some(v) ==> holds_parts_of(v, raw_text@),
{
    let check_cs = match check_checksum(raw_text) {
        Ok(b) => b,
        Err(_) => false,
    };
    if !check_cs {
        return None;
    }
    let n = raw_text.unicode_len();
    if n != 17 {
        return None;
    }
    let wmi = raw_text.substring_char(0, 3);
    let country = match country_code(wmi) {
        Some(name) => name,
        None => "",
    };
    proof {
        reveal_strlit("");
        assert(""@ =~= Seq::<char>::empty());
    }
    let year = match model_year(raw_text.get_char(9)) {
        Ok(y) => y,
        Err(_) => {
            return None;
        },
    };
    Some(
        VINParsedRXingResult {
            vin: raw_text.to_owned(),
            world_manufacturer_id: wmi.to_owned(),
            vehicle_descriptor_section: raw_text.substring_char(3, 9).to_owned(),
            vehicle_identifier_section: raw_text.substring_char(9, 17).to_owned(),
            country_code: country.to_owned(),
            vehicle_attributes: raw_text.substring_char(3, 8).to_owned(),
            model_year: year,
            plant_code: raw_text.get_char(10),
            sequential_number: raw_text.substring_char(11, 17).to_owned(),
        },
    )
}

/// What a cleaned text gives, where the expression for seventeen letters
/// and digits was found in it or not.
pub open spec fn parsed_from(found: Option<bool>, cleaned: Seq<char>) -> bool {
    found == Some(true) && is_vin(cleaned)
}

/// Detects a result that is likely a vehicle identification number: the
/// text of a Code 39 barcode which, trimmed and without the letters I, O
/// and Q, holds seventeen capital letters and digits, a checksum that
/// holds and a model year.
pub fn parse(format: BarcodeFormat, text: &str) -> (r: Option<VINParsedRXingResult>)
    ensures
        format != BarcodeFormat::CODE_39 ==> r is None,
        format == BarcodeFormat::CODE_39 ==> match regex_replacement(
            IOQ@,
            trimmed(text@),
            ""@,
        ) {
            None => r is None,
            Some(cleaned) => (r is Some <==> parsed_from(regex_found(AZ09@, cleaned), cleaned))
                && (r matches Some(v) ==> holds_parts_of(v, cleaned)),
        },
{
    if format != BarcodeFormat::CODE_39 {
        return None;
    }
    let raw_text_res = trim_text(text);
    let raw_text = match regex_replace_all(IOQ, raw_text_res.as_str(), "") {
        Some(t) => t,
        None => {
            return None;
        },
    };
    match regex_find(AZ09, raw_text.as_str()) {
        Some(true) => {},
        _ => {
            return None;
        },
    }
    parse_cleaned(raw_text.as_str())
}

} // verus!
