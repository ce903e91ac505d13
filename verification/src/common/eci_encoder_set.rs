//! The character sets that are needed to encode a given input.

use crate::common::character_set_eci::{
    charset_name, eci_value, registry_entry, CharacterSetECI,
};
use crate::common::charset_codec::{can_encode, encode, encode_one, encoded_char, encoding_of};
use vstd::prelude::*;

verus! {

/// The number of single-byte character sets that are tried for a
/// character that ISO-8859-1 lacks.
pub const CANDIDATES: usize = 19;

/// The `i`-th character set that is tried: ISO-8859-2 to ISO-8859-16, the
/// Windows code pages 1250, 1251, 1252 and 1256, then Shift_JIS.
pub open spec fn candidate(i: int) -> CharacterSetECI {
    if i < 14 {
        registry_entry(i + 2)
    } else if i < 18 {
        registry_entry(i + 3)
    } else {
        CharacterSetECI::SJIS
    }
}

/// Whether `c` stands for FNC1; a negative `fnc1` means that no character does.
pub open spec fn is_fnc1(c: char, fnc1: i16) -> bool {
    c as int == fnc1 as int
}

/// Whether one of the first `n` encoders can write `c`.
pub open spec fn any_can_encode(encoders: Seq<CharacterSetECI>, c: char, n: int) -> bool
    decreases n,
{
    n > 0 && (any_can_encode(encoders, c, n - 1) || can_encode(encoders[n - 1], c))
}

/// The first candidate from `from` on that can write `c`.
pub open spec fn first_candidate(c: char, from: int) -> Option<CharacterSetECI>
    decreases CANDIDATES - from,
{
    if from < 0 || from >= CANDIDATES {
        None
    } else if can_encode(candidate(from), c) {
        Some(candidate(from))
    } else {
        first_candidate(c, from + 1)
    }
}

/// The single-byte encoders found necessary, and whether a Unicode
/// encoder is needed as well.
pub struct Needs {
    pub encoders: Seq<CharacterSetECI>,
    pub unicode: bool,
}

/// What the first `n` characters of the input need.  ISO-8859-1 is always
/// there.  A character that no encoder found so far can write adds the
/// first candidate that can write it; if there is none, a Unicode encoder
/// is needed.
pub open spec fn needs_after(input: Seq<char>, fnc1: i16, unicode: bool, n: int) -> Needs
    decreases n,
{
    if n <= 0 {
        Needs { encoders: seq![CharacterSetECI::ISO8859_1], unicode }
    } else {
        let before = needs_after(input, fnc1, unicode, n - 1);
        let c = input[n - 1];
        if is_fnc1(c, fnc1) || any_can_encode(before.encoders, c, before.encoders.len() as int) {
            before
        } else {
            match first_candidate(c, 0) {
                Some(found) => Needs { encoders: before.encoders.push(found), unicode: before.unicode },
                None => Needs { encoders: before.encoders, unicode: true },
            }
        }
    }
}

/// Whether the preferred character set is a Unicode encoding.
pub open spec fn wants_unicode(priority: Option<CharacterSetECI>) -> bool {
    priority == Some(CharacterSetECI::UTF8) || priority == Some(
        CharacterSetECI::UnicodeBigUnmarked,
    )
}

/// The encoders of the set for an input: ISO-8859-1 alone where it
/// suffices, else the single-byte encoders found necessary, then UTF-8,
/// then UTF-16BE.
pub open spec fn chosen_encoders(input: Seq<char>, priority: Option<CharacterSetECI>, fnc1: i16) -> Seq<
    CharacterSetECI,
> {
    let needs = needs_after(input, fnc1, wants_unicode(priority), input.len() as int);
    if needs.encoders.len() == 1 && !needs.unicode {
        needs.encoders
    } else {
        needs.encoders.push(CharacterSetECI::UTF8).push(CharacterSetECI::UnicodeBigUnmarked)
    }
}

/// The first index from `from` on at which `cs` stands.
pub open spec fn first_index_of(encoders: Seq<CharacterSetECI>, cs: CharacterSetECI, from: int) -> Option<
    int,
>
    decreases encoders.len() - from,
{
    if from < 0 || from >= encoders.len() {
        None
    } else if encoders[from] == cs {
        Some(from)
    } else {
        first_index_of(encoders, cs, from + 1)
    }
}

/// The index of the preferred character set among the encoders, if it is one of them.
pub open spec fn priority_index(encoders: Seq<CharacterSetECI>, priority: Option<CharacterSetECI>) -> Option<
    int,
> {
    match priority {
        Some(cs) => first_index_of(encoders, cs, 0),
        None => None,
    }
}

/// Every state of the scan starts with ISO-8859-1.
pub proof fn lemma_needs_start_with_latin1(input: Seq<char>, fnc1: i16, unicode: bool, n: int)
    ensures
        needs_after(input, fnc1, unicode, n).encoders.len() >= 1,
        needs_after(input, fnc1, unicode, n).encoders[0] == CharacterSetECI::ISO8859_1,
    decreases n,
{
    if n > 0 {
        lemma_needs_start_with_latin1(input, fnc1, unicode, n - 1);
    }
}

/// An encoder found among the first encoders is found among more of them.
pub proof fn lemma_any_monotone(encoders: Seq<CharacterSetECI>, c: char, n: int, m: int)
    requires
        0 <= n <= m,
        any_can_encode(encoders, c, n),
    ensures
        any_can_encode(encoders, c, m),
    decreases m - n,
{
    if n < m {
        lemma_any_monotone(encoders, c, n, m - 1);
    }
}

/// A set of encoders for a given input.
///
/// The set holds only character sets with an ECI value.  Its first
/// encoder is always ISO-8859-1.  If the input holds a character that no
/// single-byte encoder can write, or if more than one single-byte encoder
/// is needed, the last two encoders are UTF-8 and UTF-16BE.
#[derive(Clone, Debug)]
pub struct ECIEncoderSet {
    encoders: Vec<CharacterSetECI>,
    priorityEncoderIndex: Option<usize>,
}

impl ECIEncoderSet {
    pub closed spec fn encoders(&self) -> Seq<CharacterSetECI> {
        self.encoders@
    }

    /// The index of the preferred encoder, if there is one.
    pub closed spec fn priority(&self) -> Option<int> {
        match self.priorityEncoderIndex {
            Some(i) => Some(i as int),
            None => None,
        }
    }

    pub open spec fn wf(&self) -> bool {
        &&& self.encoders().len() >= 1
        &&& self.encoders()[0] == CharacterSetECI::ISO8859_1
        &&& self.priority() matches Some(p) ==> 0 <= p < self.encoders().len()
    }

    /// Whether some encoder of the set can write `c`, or `c` stands for FNC1.
    pub open spec fn covers_char(&self, c: char, fnc1: i16) -> bool {
        is_fnc1(c, fnc1) || any_can_encode(self.encoders(), c, self.encoders().len() as int)
    }

    /// Whether every character of the input can be written.
    pub open spec fn covers(&self, input: Seq<char>, fnc1: i16) -> bool {
        forall|i: int| 0 <= i < input.len() ==> self.covers_char(#[trigger] input[i], fnc1)
    }

    /// The `i`-th candidate.
    fn candidate_at(i: usize) -> (r: CharacterSetECI)
        requires
            i < CANDIDATES,
        ensures
            r == candidate(i as int),
    {
        if i < 14 {
            CharacterSetECI::entry(i + 2)
        } else if i < 18 {
            CharacterSetECI::entry(i + 3)
        } else {
            CharacterSetECI::SJIS
        }
    }

    /// Whether `c` stands for FNC1.
    pub fn stands_for_fnc1(c: char, fnc1: i16) -> (r: bool)
        ensures
            r == is_fnc1(c, fnc1),
    {
        c as u32 as i64 == fnc1 as i64
    }

    /// Whether one of the encoders can write `c`.
    fn some_can_encode(encoders: &Vec<CharacterSetECI>, c: char) -> (r: bool)
        ensures
            r == any_can_encode(encoders@, c, encoders@.len() as int),
    {
        let mut i: usize = 0;
        while i < encoders.len()
            invariant
                i <= encoders.len(),
                !any_can_encode(encoders@, c, i as int),
            decreases encoders.len() - i,
        {
            if encode_one(encoders[i], c).is_some() {
                proof {
                    lemma_any_monotone(encoders@, c, i + 1, encoders@.len() as int);
                }
                return true;
            }
            i += 1;
        }
        false
    }

    /// The first candidate that can write `c`.
    fn find_candidate(c: char) -> (r: Option<CharacterSetECI>)
        ensures
            r == first_candidate(c, 0),
    {
        let mut k: usize = 0;
        while k < CANDIDATES
            invariant
                k <= CANDIDATES,
                first_candidate(c, 0) == first_candidate(c, k as int),
            decreases CANDIDATES - k,
        {
            let encoder = Self::candidate_at(k);
            if encode_one(encoder, c).is_some() {
                return Some(encoder);
            }
            k += 1;
        }
        None
    }

    /// The first index at which `cs` stands among the encoders.
    fn find_index(encoders: &Vec<CharacterSetECI>, cs: CharacterSetECI) -> (r: Option<usize>)
        ensures
            match r {
                Some(i) => first_index_of(encoders@, cs, 0) == Some(i as int) && i < encoders@.len(),
                None => first_index_of(encoders@, cs, 0) is None,
            },
    {
        let mut j: usize = 0;
        while j < encoders.len()
            invariant
                j <= encoders.len(),
                first_index_of(encoders@, cs, 0) == first_index_of(encoders@, cs, j as int),
            decreases encoders.len() - j,
        {
            if encoders[j] == cs {
                return Some(j);
            }
            j += 1;
        }
        None
    }

    /// Constructs an encoder set.
    ///
    /// `priority_charset` is the preferred character set, if any.  `fnc1`
    /// is the character that stands for FNC1 in the input, or -1.
    pub fn new(string_to_encode: &str, priority_charset: Option<CharacterSetECI>, fnc1: i16) -> (r:
        Self)
        ensures
            r.wf(),
            r.encoders() == chosen_encoders(string_to_encode@, priority_charset, fnc1),
            r.priority() == priority_index(r.encoders(), priority_charset),
    {
        let ghost input = string_to_encode@;
        let mut needed_encoders: Vec<CharacterSetECI> = Vec::new();
        // we always need the ISO-8859-1 encoder. It is the default encoding
        needed_encoders.push(CharacterSetECI::ISO8859_1);
        let mut need_unicode_encoder = match priority_charset {
            Some(CharacterSetECI::UTF8) => true,
            Some(CharacterSetECI::UnicodeBigUnmarked) => true,
            _ => false,
        };
        let ghost unicode0 = need_unicode_encoder;
        assert(needed_encoders@ =~= seq![CharacterSetECI::ISO8859_1]);
        // Walk over the input string and see if all characters can be encoded with the list of encoders
        let n = string_to_encode.unicode_len();
        let mut i: usize = 0;
        while i < n
            invariant
                i <= n,
                n == input.len(),
                input == string_to_encode@,
                unicode0 == wants_unicode(priority_charset),
                needs_after(input, fnc1, unicode0, i as int) == (Needs {
                    encoders: needed_encoders@,
                    unicode: need_unicode_encoder,
                }),
            decreases n - i,
        {
            let c = string_to_encode.get_char(i);
            let can = Self::stands_for_fnc1(c, fnc1) || Self::some_can_encode(
                &needed_encoders,
                c,
            );
            if !can {
                // for the character at position i we don't yet have an encoder in the list
                match Self::find_candidate(c) {
                    Some(encoder) => {
                        // Good, we found an encoder that can encode the character.
                        needed_encoders.push(encoder);
                    },
                    None => {
                        // The character is not encodeable by any of the single byte
                        // encoders so we remember that we will need a Unicode encoder.
                        need_unicode_encoder = true;
                    },
                }
            }
            i += 1;
        }
        proof {
            lemma_needs_start_with_latin1(input, fnc1, unicode0, n as int);
        }
        let mut encoders: Vec<CharacterSetECI> = needed_encoders;
        if !(encoders.len() == 1 && !need_unicode_encoder) {
            // we need more than one single byte encoder or we need a Unicode encoder.
            // In this case we append a UTF-8 and UTF-16 encoder to the list
            encoders.push(CharacterSetECI::UTF8);
            encoders.push(CharacterSetECI::UnicodeBigUnmarked);
        }
        // Compute priorityEncoderIndex by looking up priorityCharset in encoders
        let priority_encoder_index: Option<usize> = match priority_charset {
            Some(cs) => Self::find_index(&encoders, cs),
            None => None,
        };
        Self { encoders, priorityEncoderIndex: priority_encoder_index }
    }

    pub fn len(&self) -> (r: usize)
        ensures
            r == self.encoders().len(),
    {
        self.encoders.len()
    }

    /// The name of the `index`-th character set.
    pub fn getCharsetName(&self, index: usize) -> (r: &'static str)
        requires
            index < self.encoders().len(),
        ensures
            r@ == charset_name(self.encoders()[index as int]),
    {
        CharacterSetECI::getCharset(&self.encoders[index])
    }

    /// The `index`-th character set.
    pub fn getCharset(&self, index: usize) -> (r: CharacterSetECI)
        requires
            index < self.encoders().len(),
        ensures
            r == self.encoders()[index as int],
    {
        self.encoders[index]
    }

    /// The ECI value of the `encoder_index`-th character set.
    pub fn getECIValue(&self, encoder_index: usize) -> (r: u32)
        requires
            encoder_index < self.encoders().len(),
        ensures
            r == eci_value(self.encoders()[encoder_index as int]),
            r <= 30,
    {
        CharacterSetECI::getValue(&self.encoders[encoder_index])
    }

    /// The index of the preferred encoder, if a preferred character set
    /// was given and is among the encoders.
    pub fn getPriorityEncoderIndex(&self) -> (r: Option<usize>)
        ensures
            match r {
                Some(i) => self.priority() == Some(i as int),
                None => self.priority() is None,
            },
    {
        self.priorityEncoderIndex
    }

    /// Whether the `encoder_index`-th encoder can write `c`.
    pub fn canEncode(&self, c: char, encoder_index: usize) -> (r: bool)
        requires
            encoder_index < self.encoders().len(),
        ensures
            r == can_encode(self.encoders()[encoder_index as int], c),
    {
        encode_one(self.encoders[encoder_index], c).is_some()
    }

    /// The bytes of `c` in the `encoder_index`-th character set, which
    /// must have the character.
    pub fn encode_char(&self, c: char, encoder_index: usize) -> (r: Vec<u8>)
        requires
            encoder_index < self.encoders().len(),
            can_encode(self.encoders()[encoder_index as int], c),
        ensures
            r@ == encoded_char(self.encoders()[encoder_index as int], c),
    {
        match encode_one(self.encoders[encoder_index], c) {
            Some(bytes) => bytes,
            None => Vec::new(),
        }
    }

    /// The bytes of `c` in the `encoder_index`-th character set, if the
    /// set has the character.
    pub fn try_encode_char(&self, c: char, encoder_index: usize) -> (r: Option<Vec<u8>>)
        requires
            encoder_index < self.encoders().len(),
        ensures
            r is Some <==> can_encode(self.encoders()[encoder_index as int], c),
            r matches Some(v) ==> v@ == encoded_char(self.encoders()[encoder_index as int], c),
    {
        if self.canEncode(c, encoder_index) {
            Some(self.encode_char(c, encoder_index))
        } else {
            None
        }
    }

    /// The bytes of `s` in the `encoder_index`-th character set, a
    /// question mark standing for each character that the set lacks.  The
    /// character set must be one that can be written.
    pub fn encode_string(&self, s: &str, encoder_index: usize) -> (r: Vec<u8>)
        requires
            encoder_index < self.encoders().len(),
            encoding_of(self.encoders()[encoder_index as int], s@, false) is Some,
        ensures
            Some(r@) == encoding_of(self.encoders()[encoder_index as int], s@, false),
    {
        match encode(self.encoders[encoder_index], s, false) {
            Some(bytes) => bytes,
            None => Vec::new(),
        }
    }

    /// The bytes of `s` in the `encoder_index`-th character set, if the
    /// character set can be written.
    pub fn try_encode_string(&self, s: &str, encoder_index: usize) -> (r: Option<Vec<u8>>)
        requires
            encoder_index < self.encoders().len(),
        ensures
            r is Some <==> encoding_of(self.encoders()[encoder_index as int], s@, false) is Some,
            r matches Some(v) ==> Some(v@) == encoding_of(
                self.encoders()[encoder_index as int],
                s@,
                false,
            ),
    {
        if encode(self.encoders[encoder_index], s, false).is_some() {
            Some(self.encode_string(s, encoder_index))
        } else {
            None
        }
    }

    /// Whether every character of the input can be written by some
    /// encoder of the set, or stands for FNC1.
    pub fn covers_all(&self, input: &str, fnc1: i16) -> (r: bool)
        ensures
            r == self.covers(input@, fnc1),
    {
        let n = input.unicode_len();
        let mut i: usize = 0;
        while i < n
            invariant
                i <= n,
                n == input@.len(),
                forall|j: int| 0 <= j < i ==> self.covers_char(#[trigger] input@[j], fnc1),
            decreases n - i,
        {
            let c = input.get_char(i);
            if !(Self::stands_for_fnc1(c, fnc1) || Self::some_can_encode(&self.encoders, c)) {
                assert(!self.covers_char(input@[i as int], fnc1));
                return false;
            }
            i += 1;
        }
        true
    }
}

} // verus!

verus! {

/// The encoders found necessary never become fewer, and a Unicode encoder
/// once needed stays needed.
pub proof fn lemma_needs_grow(input: Seq<char>, fnc1: i16, unicode: bool, m: int, n: int)
    requires
        m <= n,
    ensures
        needs_after(input, fnc1, unicode, m).encoders.len() <= needs_after(
            input,
            fnc1,
            unicode,
            n,
        ).encoders.len(),
        needs_after(input, fnc1, unicode, m).unicode ==> needs_after(input, fnc1, unicode, n).unicode,
    decreases n - m,
{
    if m < n {
        lemma_needs_grow(input, fnc1, unicode, m, n - 1);
    }
}

/// Where ISO-8859-1 alone is chosen, every character of the input stands
/// for FNC1 or lies below U+0100.
pub proof fn lemma_latin1_alone(input: Seq<char>, priority: Option<CharacterSetECI>, fnc1: i16, i: int)
    requires
        chosen_encoders(input, priority, fnc1).len() == 1,
        0 <= i < input.len(),
    ensures
        is_fnc1(input[i], fnc1) || input[i] as u32 <= 0xFF,
{
    let unicode = wants_unicode(priority);
    let n = input.len() as int;
    lemma_needs_start_with_latin1(input, fnc1, unicode, n);
    lemma_needs_start_with_latin1(input, fnc1, unicode, i);
    lemma_needs_start_with_latin1(input, fnc1, unicode, i + 1);
    lemma_needs_grow(input, fnc1, unicode, i + 1, n);
    lemma_needs_grow(input, fnc1, unicode, i, i + 1);
    let before = needs_after(input, fnc1, unicode, i);
    let after = needs_after(input, fnc1, unicode, i + 1);
    assert(after.encoders.len() == 1 && !after.unicode);
    assert(before.encoders.len() == 1);
    if !is_fnc1(input[i], fnc1) {
        assert(any_can_encode(before.encoders, input[i], 1));
        assert(!any_can_encode(before.encoders, input[i], 0));
        assert(can_encode(CharacterSetECI::ISO8859_1, input[i]));
        let text = seq![input[i]];
        assert(crate::common::charset_codec::latin1_byte(text[0], true) is Some);
    }
}

} // verus!
