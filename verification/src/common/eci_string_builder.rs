//! Assembling a decoded string from bytes and the ECIs between them.
//!
//! The builder keeps the bytes as they come and remembers where each ECI
//! takes effect; the text is decoded segment by segment when asked for.

use crate::common::character_set_eci::CharacterSetECI;
use crate::common::charset_codec::{decode, decoding_of, latin1_decode, latin1_decoding};
use vstd::prelude::*;
use vstd::string::StringSliceAdditionalSpecFns;

verus! {

/// What an ECI says of the bytes that follow it.
#[derive(Debug, Clone, Copy, PartialEq, Eq, Structural)]
pub enum Eci {
    /// An ECI that designates no known character set.
    Unknown,
    /// The bytes are data, no text.
    Binary,
    /// The bytes are text in the given character set.
    Charset(CharacterSetECI),
}

/// The text of a segment.  Data and bytes under an unknown ECI are read
/// one character per byte.  An empty segment, and one that its character
/// set cannot read, contribute nothing.
pub open spec fn segment_text(bytes: Seq<u8>, eci: Eci) -> Seq<char> {
    match eci {
        Eci::Unknown => latin1_decoding(bytes),
        Eci::Binary => latin1_decoding(bytes),
        Eci::Charset(cs) => if bytes.len() == 0 {
            Seq::empty()
        } else {
            match decoding_of(cs, bytes, true) {
                Some(text) => text,
                None => Seq::empty(),
            }
        },
    }
}

/// Where segment `i` ends: where the next one starts, or with the bytes.
pub open spec fn segment_end(starts: Seq<(Eci, int)>, len: int, i: int) -> int {
    if i + 1 < starts.len() {
        starts[i + 1].1
    } else {
        len
    }
}

/// The text of the first `n` segments.
pub open spec fn segments_text(bytes: Seq<u8>, starts: Seq<(Eci, int)>, n: int) -> Seq<char>
    decreases n,
{
    if n <= 0 {
        Seq::empty()
    } else {
        segments_text(bytes, starts, n - 1) + segment_text(
            bytes.subrange(starts[n - 1].1, segment_end(starts, bytes.len() as int, n - 1)),
            starts[n - 1].0,
        )
    }
}

/// The decoded text: the bytes before the first ECI read as ISO-8859-1,
/// then every segment read under its ECI.
pub open spec fn decoded_text(bytes: Seq<u8>, starts: Seq<(Eci, int)>) -> Seq<char> {
    let first = if starts.len() > 0 {
        starts[0].1
    } else {
        bytes.len() as int
    };
    segment_text(bytes.subrange(0, first), Eci::Charset(CharacterSetECI::ISO8859_1))
        + segments_text(bytes, starts, starts.len() as int)
}

/// The decimal digits of a number as ASCII, without a sign.
pub open spec fn digits(value: nat) -> Seq<u8>
    decreases value,
{
    if value < 10 {
        seq![(48 + value) as u8]
    } else {
        digits(value / 10).push((48 + value % 10) as u8)
    }
}

/// The decimal notation of a number as ASCII.
pub open spec fn decimal(value: int) -> Seq<u8> {
    if value < 0 {
        seq![45u8] + digits((-value) as nat)
    } else {
        digits(value as nat)
    }
}

/// Writes the decimal notation of a number.
pub fn decimal_bytes(value: i32) -> (r: Vec<u8>)
    ensures
        r@ == decimal(value as int),
{
    let negative = value < 0;
    let magnitude: u64 = if negative {
        (-(value as i64)) as u64
    } else {
        value as u64
    };
    // collect the digits from the last to the first
    let mut reversed: Vec<u8> = Vec::new();
    let mut rest = magnitude;
    reversed.push((48 + rest % 10) as u8);
    rest = rest / 10;
    let ghost mut done: Seq<u8> = seq![(48 + magnitude % 10) as u8];
    while rest > 0
        invariant
            reversed@.len() >= 1,
            done.len() == reversed@.len(),
            forall|i: int| 0 <= i < done.len() ==> done[i] == reversed@[done.len() - 1 - i],
            digits(magnitude as nat) == digits_then(rest as nat, done),
        decreases rest,
    {
        let d = (48 + rest % 10) as u8;
        reversed.push(d);
        proof {
            let before = done;
            done = seq![d] + before;
            assert(digits_then(rest as nat, before) == digits_then((rest / 10) as nat, done)) by {
                if rest < 10 {
                    assert(digits(rest as nat) + before =~= done);
                } else {
                    assert(digits(rest as nat) + before =~= digits((rest / 10) as nat) + done);
                }
            }
        }
        rest = rest / 10;
    }
    let mut out: Vec<u8> = Vec::new();
    if negative {
        out.push(45u8);
    }
    let ghost sign = out@;
    let mut i = reversed.len();
    while i > 0
        invariant
            i <= reversed.len(),
            done.len() == reversed@.len(),
            forall|k: int| 0 <= k < done.len() ==> done[k] == reversed@[done.len() - 1 - k],
            out@ == sign + done.take(reversed.len() - i),
        decreases i,
    {
        i -= 1;
        out.push(reversed[i]);
        assert(out@ =~= sign + done.take(reversed.len() - i));
    }
    proof {
        assert(done.take(done.len() as int) =~= done);
        assert(digits_then(0, done) =~= done);
    }
    out
}

/// The digits of `rest`, if it is not zero, followed by `done`.
pub open spec fn digits_then(rest: nat, done: Seq<u8>) -> Seq<u8> {
    if rest == 0 {
        done
    } else {
        digits(rest) + done
    }
}

/// Converts a sequence of ECIs and bytes into a string.
pub struct ECIStringBuilder {
    is_eci: bool,
    eci_result: Option<String>,
    bytes: Vec<u8>,
    eci_positions: Vec<(Eci, usize, usize)>,
}

impl ECIStringBuilder {
    /// The bytes appended so far.
    pub closed spec fn bytes_spec(&self) -> Seq<u8> {
        self.bytes@
    }

    /// The ECIs that took effect, each with the number of bytes before it.
    pub closed spec fn segments(&self) -> Seq<(Eci, int)> {
        Seq::new(
            self.eci_positions@.len(),
            |i: int| (self.eci_positions@[i].0, self.eci_positions@[i].1 as int),
        )
    }

    /// Whether an ECI other than the default one has been seen.
    pub closed spec fn in_eci_mode(&self) -> bool {
        self.is_eci
    }

    /// The text built by `build_result`, while nothing has been appended since.
    pub closed spec fn built(&self) -> Option<Seq<char>> {
        match self.eci_result {
            Some(s) => Some(s@),
            None => None,
        }
    }

    /// The segments lie one after the other within the bytes; each
    /// records where the next one starts, and the last one is open.
    pub closed spec fn wf(&self) -> bool {
        &&& forall|i: int|
            0 <= i < self.eci_positions@.len() ==> (#[trigger] self.eci_positions@[i]).1
                <= self.bytes@.len()
        &&& forall|i: int, j: int|
            0 <= i && j == i + 1 && j < self.eci_positions@.len() ==> (
            #[trigger] self.eci_positions@[i]).2 == (#[trigger] self.eci_positions@[j]).1
                && self.eci_positions@[i].1 <= self.eci_positions@[j].1
        &&& self.eci_positions@.len() > 0 ==> self.eci_positions@.last().2 == 0
        &&& self.eci_result matches Some(s) ==> s@ == self.text()
    }

    /// The text that the bytes and ECIs appended so far decode to.
    pub open spec fn text(&self) -> Seq<char> {
        decoded_text(self.bytes_spec(), self.segments())
    }

    /// An empty builder.
    pub fn new() -> (r: Self)
        ensures
            r.wf(),
            r.bytes_spec() == Seq::<u8>::empty(),
            r.segments() == Seq::<(Eci, int)>::empty(),
            !r.in_eci_mode(),
            r.built() is None,
    {
        let r = Self {
            is_eci: false,
            eci_result: None,
            bytes: Vec::new(),
            eci_positions: Vec::new(),
        };
        assert(r.segments() =~= Seq::<(Eci, int)>::empty());
        r
    }

    /// An empty builder with room for `initial_capacity` bytes.
    pub fn with_capacity(initial_capacity: usize) -> (r: Self)
        ensures
            r.wf(),
            r.bytes_spec() == Seq::<u8>::empty(),
            r.segments() == Seq::<(Eci, int)>::empty(),
            !r.in_eci_mode(),
            r.built() is None,
    {
        let r = Self {
            is_eci: false,
            eci_result: None,
            bytes: Vec::with_capacity(initial_capacity),
            eci_positions: Vec::new(),
        };
        assert(r.segments() =~= Seq::<(Eci, int)>::empty());
        r
    }

    pub fn bytes(&self) -> (r: &Vec<u8>)
        ensures
            r@ == self.bytes_spec(),
    {
        &self.bytes
    }

    /// Appends the lowest byte of `value`.
    pub fn append_char(&mut self, value: char)
        requires
            old(self).wf(),
        ensures
            final(self).wf(),
            final(self).bytes_spec() == old(self).bytes_spec().push((value as u32 % 256) as u8),
            final(self).segments() == old(self).segments(),
            final(self).in_eci_mode() == old(self).in_eci_mode(),
            final(self).built() is None,
    {
        self.append_byte((value as u32 % 256) as u8);
    }

    /// Appends a byte.
    pub fn append_byte(&mut self, value: u8)
        requires
            old(self).wf(),
        ensures
            final(self).wf(),
            final(self).bytes_spec() == old(self).bytes_spec().push(value),
            final(self).segments() == old(self).segments(),
            final(self).in_eci_mode() == old(self).in_eci_mode(),
            final(self).built() is None,
    {
        self.eci_result = None;
        self.bytes.push(value);
        assert(self.segments() =~= old(self).segments());
    }

    /// Appends bytes.
    pub fn append_bytes(&mut self, value: &[u8])
        requires
            old(self).wf(),
        ensures
            final(self).wf(),
            final(self).bytes_spec() == old(self).bytes_spec() + value@,
            final(self).segments() == old(self).segments(),
            final(self).in_eci_mode() == old(self).in_eci_mode(),
            final(self).built() is None,
    {
        self.eci_result = None;
        let mut i: usize = 0;
        while i < value.len()
            invariant
                i <= value.len(),
                self.eci_result is None,
                self.is_eci == old(self).is_eci,
                self.eci_positions@ == old(self).eci_positions@,
                self.bytes@ == old(self).bytes@ + value@.take(i as int),
            decreases value.len() - i,
        {
            self.bytes.push(value[i]);
            i += 1;
            assert(self.bytes@ =~= old(self).bytes@ + value@.take(i as int));
        }
        assert(value@.take(value.len() as int) =~= value@);
        assert(self.segments() =~= old(self).segments());
    }

    /// Appends the characters of `value` as bytes.  Text that is not
    /// plain ASCII is appended as UTF-8, after a UTF-8 ECI.
    pub fn append_string(&mut self, value: &str)
        requires
            old(self).wf(),
        ensures
            final(self).wf(),
            final(self).built() is None,
            vstd::string::is_ascii(value) ==> final(self).bytes_spec() == old(self).bytes_spec()
                + value.spec_bytes() && final(self).segments() == old(self).segments()
                && final(self).in_eci_mode() == old(self).in_eci_mode(),
            !vstd::string::is_ascii(value) ==> final(self).bytes_spec() == old(self).bytes_spec()
                + value.spec_bytes() && final(self).segments() == old(self).segments().push(
                (Eci::Charset(CharacterSetECI::UTF8), old(self).bytes_spec().len() as int),
            ) && final(self).in_eci_mode(),
    {
        if !value.is_ascii() {
            self.append_eci(Eci::Charset(CharacterSetECI::UTF8));
        }
        let data = value.as_bytes_vec();
        self.append_bytes(data.as_slice());
    }

    /// Appends the decimal notation of `value`.
    pub fn append(&mut self, value: i32)
        requires
            old(self).wf(),
        ensures
            final(self).wf(),
            final(self).bytes_spec() == old(self).bytes_spec() + decimal(value as int),
            final(self).segments() == old(self).segments(),
            final(self).in_eci_mode() == old(self).in_eci_mode(),
            final(self).built() is None,
    {
        let text = decimal_bytes(value);
        self.append_bytes(text.as_slice());
    }

    /// Appends an ECI: the bytes that follow are read under it.  An ECI
    /// for ISO-8859-1, the default, counts only after another ECI.
    pub fn append_eci(&mut self, eci: Eci)
        requires
            old(self).wf(),
        ensures
            final(self).wf(),
            final(self).bytes_spec() == old(self).bytes_spec(),
            final(self).built() is None,
            final(self).in_eci_mode() == (old(self).in_eci_mode() || eci != Eci::Charset(
                CharacterSetECI::ISO8859_1,
            )),
            final(self).segments() == if final(self).in_eci_mode() {
                old(self).segments().push((eci, old(self).bytes_spec().len() as int))
            } else {
                old(self).segments()
            },
    {
        self.eci_result = None;
        if !self.is_eci && eci != Eci::Charset(CharacterSetECI::ISO8859_1) {
            self.is_eci = true;
        }
        if self.is_eci {
            let count = self.eci_positions.len();
            let here = self.bytes.len();
            if count > 0 {
                let last = self.eci_positions[count - 1];
                self.eci_positions.set(count - 1, (last.0, last.1, here));
            }
            self.eci_positions.push((eci, here, 0));
            assert(self.segments() =~= old(self).segments().push(
                (eci, old(self).bytes_spec().len() as int),
            ));
        } else {
            assert(self.segments() =~= old(self).segments());
        }
    }

    /// The bytes from `start` to `end`.
    fn slice(&self, start: usize, end: usize) -> (r: Vec<u8>)
        requires
            start <= end <= self.bytes_spec().len(),
        ensures
            r@ == self.bytes_spec().subrange(start as int, end as int),
    {
        let mut out: Vec<u8> = Vec::new();
        let mut i = start;
        while i < end
            invariant
                start <= i <= end <= self.bytes@.len(),
                out@ == self.bytes@.subrange(start as int, i as int),
            decreases end - i,
        {
            out.push(self.bytes[i]);
            i += 1;
            assert(out@ =~= self.bytes@.subrange(start as int, i as int));
        }
        out
    }

    /// Decodes everything appended so far, segment by segment.
    pub fn encodeCurrentBytesIfAny(&self) -> (r: String)
        requires
            self.wf(),
        ensures
            r@ == self.text(),
    {
        let mut encoded_string = String::new();
        let len = self.bytes.len();
        let count = self.eci_positions.len();
        // First the bytes before any ECI
        let first = if count > 0 {
            self.eci_positions[0].1
        } else {
            len
        };
        let head = self.slice(0, first);
        match Self::encode_segment(&head, Eci::Charset(CharacterSetECI::ISO8859_1)) {
            Some(text) => {
                encoded_string.append(text.as_str());
            },
            None => {},
        }
        let ghost head_text = encoded_string@;
        // If there are more sets, encode each of them in turn
        let mut i: usize = 0;
        proof {
            assert(encoded_string@ =~= head_text + segments_text(self.bytes@, self.segments(), 0));
        }
        while i < count
            invariant
                i <= count,
                self.wf(),
                len == self.bytes@.len(),
                count == self.eci_positions@.len(),
                encoded_string@ == head_text + segments_text(self.bytes@, self.segments(), i as int),
            decreases count - i,
        {
            let (eci, eci_start, _) = self.eci_positions[i];
            let end = if i + 1 < count {
                self.eci_positions[i + 1].1
            } else {
                len
            };
            proof {
                assert(self.eci_positions@[i as int].1 <= self.bytes@.len());
                if i + 1 < count {
                    assert(self.eci_positions@[i + 1].1 <= self.bytes@.len());
                    assert(self.eci_positions@[i as int].2 == self.eci_positions@[i + 1].1);
                }
                assert(self.segments()[i as int] == (eci, eci_start as int));
                assert(segment_end(self.segments(), len as int, i as int) == end);
            }
            let part = self.slice(eci_start, end);
            let ghost before = encoded_string@;
            match Self::encode_segment(&part, eci) {
                Some(text) => {
                    encoded_string.append(text.as_str());
                },
                None => {},
            }
            i += 1;
            proof {
                assert(encoded_string@ =~= head_text + segments_text(
                    self.bytes@,
                    self.segments(),
                    i as int,
                ));
            }
        }
        encoded_string
    }

    /// The text of one segment, or nothing where the text is empty.
    fn encode_segment(bytes: &Vec<u8>, eci: Eci) -> (r: Option<String>)
        ensures
            match r {
                Some(s) => s@ == segment_text(bytes@, eci) && s@.len() > 0,
                None => segment_text(bytes@, eci).len() == 0,
            },
    {
        let encoded_string = match eci {
            Eci::Binary => latin1_decode(bytes),
            Eci::Unknown => latin1_decode(bytes),
            Eci::Charset(cs) => {
                if bytes.len() == 0 {
                    return None;
                }
                match decode(cs, bytes, true) {
                    Some(text) => text,
                    None => {
                        return None;
                    },
                }
            },
        };
        if encoded_string.as_str().unicode_len() == 0 {
            None
        } else {
            Some(encoded_string)
        }
    }

    /// Appends the characters of `value`.
    pub fn appendCharacters(&mut self, value: &str)
        requires
            old(self).wf(),
        ensures
            final(self).wf(),
            final(self).built() is None,
            vstd::string::is_ascii(value) ==> final(self).bytes_spec() == old(self).bytes_spec()
                + value.spec_bytes() && final(self).segments() == old(self).segments()
                && final(self).in_eci_mode() == old(self).in_eci_mode(),
            !vstd::string::is_ascii(value) ==> final(self).bytes_spec() == old(self).bytes_spec()
                + value.spec_bytes() && final(self).segments() == old(self).segments().push(
                (Eci::Charset(CharacterSetECI::UTF8), old(self).bytes_spec().len() as int),
            ) && final(self).in_eci_mode(),
    {
        self.append_string(value);
    }

    /// The number of bytes appended.
    pub fn len(&mut self) -> (r: usize)
        ensures
            *final(self) == *old(self),
            r == old(self).bytes_spec().len(),
    {
        self.bytes.len()
    }

    /// Whether nothing has been appended.
    pub fn is_empty(&mut self) -> (r: bool)
        ensures
            *final(self) == *old(self),
            r == (old(self).bytes_spec().len() == 0),
    {
        self.bytes.len() == 0
    }

    /// Decodes the text once, and keeps it until something is appended.
    pub fn build_result(self) -> (r: Self)
        requires
            self.wf(),
        ensures
            r.wf(),
            r.bytes_spec() == self.bytes_spec(),
            r.segments() == self.segments(),
            r.in_eci_mode() == self.in_eci_mode(),
            r.built() == Some(self.text()),
    {
        let text = self.encodeCurrentBytesIfAny();
        let mut built = self;
        built.eci_result = Some(text);
        assert(built.segments() =~= self.segments());
        built
    }

    /// The decoded text.
    pub fn to_string(&self) -> (r: String)
        requires
            self.wf(),
        ensures
            r@ == self.text(),
    {
        match &self.eci_result {
            Some(res) => res.clone(),
            None => self.encodeCurrentBytesIfAny(),
        }
    }
}

} // verus!
