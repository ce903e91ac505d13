//! Converting a character string into a minimal sequence of ECIs and bytes.
//!
//! Every character can be written by some of the encoders of a set, at the
//! cost of its bytes, and a change of encoder costs an ECI.  The cheapest
//! way through this lattice is found column by column.

use crate::common::character_set_eci::{eci_value, CharacterSetECI};
use crate::common::charset_codec::{can_encode, encoded_char, push_char};
use crate::common::eci_string_builder::{decimal, decimal_bytes};
use crate::common::eci_encoder_set::{chosen_encoders, is_fnc1, priority_index, ECIEncoderSet};
use crate::exceptions::Exceptions;
use vstd::prelude::*;

verus! {

/// What an ECI costs: a latch and two codewords, approximately.
pub const COST_PER_ECI: usize = 3;

/// The token that stands for FNC1.
pub const FNC1_TOKEN: u16 = 1000;

/// The most that one step through the lattice can cost.
pub const STEP_BOUND: u128 = 0x1_0000_0000_0000_0002;

/// The longest input whose cost is sure to be countable.
pub const MAX_INPUT: u64 = 0xFFFF_FFFF_FFFF_FFF0;

/// Whether a token is an ECI.
pub open spec fn token_is_eci(token: u16) -> bool {
    255 < token <= 999
}

/// An input, the encoders that may write it, the index of the preferred
/// encoder and the character that stands for FNC1.
pub struct Lattice {
    pub input: Seq<char>,
    pub encoders: Seq<CharacterSetECI>,
    pub priority: Option<int>,
    pub fnc1: i16,
}

/// How a vertex is best reached: at what cost, and from which encoder.
pub struct Arrival {
    pub cost: int,
    pub pred: int,
}

/// What a change from one encoder to another costs.
pub open spec fn switch_cost(from: int, to: int) -> int {
    if from != to {
        COST_PER_ECI as int
    } else {
        0
    }
}

/// The cheaper of two arrivals; the first one where they cost the same.
pub open spec fn cheaper(first: Option<Arrival>, second: Option<Arrival>) -> Option<Arrival> {
    match (first, second) {
        (None, _) => second,
        (Some(_), None) => first,
        (Some(a), Some(b)) => if b.cost < a.cost {
            second
        } else {
            first
        },
    }
}

impl Lattice {
    pub open spec fn wf(self) -> bool {
        &&& self.encoders.len() >= 1
        &&& self.priority matches Some(p) ==> 0 <= p < self.encoders.len()
    }

    /// Character `i` stands for FNC1.
    pub open spec fn fnc1_at(self, i: int) -> bool {
        is_fnc1(self.input[i], self.fnc1)
    }

    /// Encoder `e` can write character `i`.
    pub open spec fn usable(self, i: int, e: int) -> bool {
        self.fnc1_at(i) || can_encode(self.encoders[e], self.input[i])
    }

    /// Encoder `e` may write character `i`: where the preferred encoder
    /// can write the character, only it may.
    pub open spec fn allowed(self, i: int, e: int) -> bool {
        &&& 0 <= i < self.input.len()
        &&& 0 <= e < self.encoders.len()
        &&& match self.priority {
            Some(p) => if self.usable(i, p) {
                e == p
            } else {
                self.usable(i, e)
            },
            None => self.usable(i, e),
        }
    }

    /// The number of tokens that character `i` takes with encoder `e`.
    pub open spec fn char_size(self, i: int, e: int) -> int {
        if self.fnc1_at(i) {
            1
        } else {
            encoded_char(self.encoders[e], self.input[i]).len() as int
        }
    }

    /// The best way to have written `i` characters, the last one with
    /// encoder `e`, coming from one of the first `upto` encoders.  Before
    /// the first character the encoder counts as the first one of the set.
    pub open spec fn arrival(self, i: int, e: int, upto: int) -> Option<Arrival>
        decreases i, upto,
    {
        if i <= 0 || !self.allowed(i - 1, e) {
            None
        } else if i == 1 {
            Some(Arrival { cost: self.char_size(0, e) + switch_cost(0, e), pred: 0 })
        } else if upto <= 0 {
            None
        } else {
            let from = upto - 1;
            let via = match self.arrival(i - 1, from, self.encoders.len() as int) {
                Some(a) => Some(
                    Arrival {
                        cost: a.cost + self.char_size(i - 1, e) + switch_cost(from, e),
                        pred: from,
                    },
                ),
                None => None,
            };
            cheaper(self.arrival(i, e, upto - 1), via)
        }
    }

    /// The best way to have written `i` characters, the last one with encoder `e`.
    pub open spec fn vertex(self, i: int, e: int) -> Option<Arrival> {
        self.arrival(i, e, self.encoders.len() as int)
    }

    /// The cheapest of the first `upto` vertices at the end of the input;
    /// the first one where several cost the same.
    pub open spec fn best_end(self, upto: int) -> Option<int>
        decreases upto,
    {
        if upto <= 0 {
            None
        } else {
            let rest = self.best_end(upto - 1);
            match self.vertex(self.input.len() as int, upto - 1) {
                None => rest,
                Some(a) => match rest {
                    None => Some(upto - 1),
                    Some(r) => if a.cost < self.vertex(self.input.len() as int, r)->Some_0.cost {
                        Some(upto - 1)
                    } else {
                        rest
                    },
                },
            }
        }
    }

    /// Whether the whole input can be written.
    pub open spec fn has_path(self) -> bool {
        self.input.len() == 0 || self.best_end(self.encoders.len() as int) is Some
    }

    /// The encoder that writes character `i - 1` on the best way that ends
    /// with encoder `end`.
    pub open spec fn path_encoder(self, end: int, i: int) -> int
        decreases self.input.len() - i,
    {
        if i >= self.input.len() {
            end
        } else {
            match self.vertex(i + 1, self.path_encoder(end, i + 1)) {
                Some(a) => a.pred,
                None => 0,
            }
        }
    }

    /// The tokens of character `i`, written with encoder `e` after encoder
    /// `before`: an ECI where the encoder changes, then the bytes of the
    /// character or the FNC1 token.
    pub open spec fn segment(self, i: int, before: int, e: int) -> Seq<u16> {
        let marker = if before != e {
            seq![(256 + eci_value(self.encoders[e])) as u16]
        } else {
            Seq::<u16>::empty()
        };
        let body = if self.fnc1_at(i) {
            seq![FNC1_TOKEN]
        } else {
            encoded_char(self.encoders[e], self.input[i]).map_values(|b: u8| b as u16)
        };
        marker + body
    }

    /// The encoder before character `i` on the best way that ends with `end`.
    pub open spec fn encoder_before(self, end: int, i: int) -> int {
        if i <= 0 {
            0
        } else {
            self.path_encoder(end, i)
        }
    }

    /// The tokens of the first `m` characters on the best way that ends with `end`.
    pub open spec fn tokens_upto(self, end: int, m: int) -> Seq<u16>
        decreases m,
    {
        if m <= 0 {
            Seq::empty()
        } else {
            self.tokens_upto(end, m - 1) + self.segment(
                m - 1,
                self.encoder_before(end, m - 1),
                self.path_encoder(end, m),
            )
        }
    }

    /// The minimal tokens of the input.
    pub open spec fn minimal_tokens(self) -> Seq<u16> {
        match self.best_end(self.encoders.len() as int) {
            Some(end) => self.tokens_upto(end, self.input.len() as int),
            None => Seq::empty(),
        }
    }
}

/// The tokens of an input that ISO-8859-1 can write alone: its code
/// points, with the FNC1 token where the FNC1 character stands.
pub open spec fn plain_tokens(input: Seq<char>, fnc1: i16) -> Seq<u16> {
    Seq::new(
        input.len(),
        |i: int|
            if is_fnc1(input[i], fnc1) {
                FNC1_TOKEN
            } else {
                (input[i] as u32) as u16
            },
    )
}

/// The lattice of an input with the encoders chosen for it.
pub open spec fn lattice_of(input: Seq<char>, priority: Option<CharacterSetECI>, fnc1: i16) -> Lattice {
    let encoders = chosen_encoders(input, priority, fnc1);
    Lattice { input, encoders, priority: priority_index(encoders, priority), fnc1 }
}

/// The tokens of an input: plain ones where ISO-8859-1 suffices, else the
/// minimal ones.
pub open spec fn input_tokens(input: Seq<char>, priority: Option<CharacterSetECI>, fnc1: i16) -> Seq<
    u16,
> {
    if chosen_encoders(input, priority, fnc1).len() == 1 {
        plain_tokens(input, fnc1)
    } else {
        lattice_of(input, priority, fnc1).minimal_tokens()
    }
}

/// An edge of the lattice: a character written with an encoder, after the
/// edge of the column before that ends with encoder `previous`.
#[derive(Clone, Copy)]
pub struct InputEdge {
    c: char,
    fnc1: bool,
    encoderIndex: usize,
    previous: Option<usize>,
    cachedTotalSize: u128,
}

impl InputEdge {
    pub closed spec fn encoder(&self) -> int {
        self.encoderIndex as int
    }

    pub closed spec fn previous(&self) -> Option<int> {
        match self.previous {
            Some(p) => Some(p as int),
            None => None,
        }
    }

    pub closed spec fn total(&self) -> int {
        self.cachedTotalSize as int
    }

    pub closed spec fn stands_for_fnc1(&self) -> bool {
        self.fnc1
    }

    /// An edge that writes `c` with the `encoder_index`-th encoder of the
    /// set.  `previous` gives the encoder and the total size of the edge
    /// before, if there is one.
    pub fn new(
        c: char,
        encoder_set: &ECIEncoderSet,
        encoder_index: usize,
        previous: Option<(usize, u128)>,
        fnc1: i16,
    ) -> (r: Self)
        requires
            encoder_index < encoder_set.encoders().len(),
            is_fnc1(c, fnc1) || can_encode(encoder_set.encoders()[encoder_index as int], c),
            previous matches Some(p) ==> p.1 + STEP_BOUND <= u128::MAX,
        ensures
            r.encoder() == encoder_index,
            r.stands_for_fnc1() == is_fnc1(c, fnc1),
            r.previous() == match previous {
                Some(p) => Some(p.0 as int),
                None => None,
            },
            r.total() == (if is_fnc1(c, fnc1) {
                1
            } else {
                encoded_char(encoder_set.encoders()[encoder_index as int], c).len() as int
            }) + switch_cost(
                match previous {
                    Some(p) => p.0 as int,
                    None => 0,
                },
                encoder_index as int,
            ) + match previous {
                Some(p) => p.1 as int,
                None => 0,
            },
            r.total() <= STEP_BOUND + match previous {
                Some(p) => p.1 as int,
                None => 0,
            },
    {
        let is_fnc1 = ECIEncoderSet::stands_for_fnc1(c, fnc1);
        let mut size: u128 = if is_fnc1 {
            1
        } else {
            encoder_set.encode_char(c, encoder_index).len() as u128
        };
        let previous_encoder_index = match previous {
            Some(p) => p.0,
            None => 0,
        };
        if previous_encoder_index != encoder_index {
            size += COST_PER_ECI as u128;
        }
        match previous {
            Some(p) => {
                size += p.1;
            },
            None => {},
        }
        Self {
            c,
            fnc1: is_fnc1,
            encoderIndex: encoder_index,
            previous: match previous {
                Some(p) => Some(p.0),
                None => None,
            },
            cachedTotalSize: size,
        }
    }

    pub fn isFNC1(&self) -> (r: bool)
        ensures
            r == self.stands_for_fnc1(),
    {
        self.fnc1
    }
}

/// Whether `after` is what stands in a column in place of `before` once
/// an edge of the given size, encoder and predecessor has been offered,
/// if the encoder is allowed at all.
pub open spec fn relaxed(
    before: Option<InputEdge>,
    after: Option<InputEdge>,
    allowed: bool,
    char_size: int,
    e: int,
    previous: Option<(usize, u128)>,
) -> bool {
    let size = char_size + switch_cost(
        match previous {
            Some(p) => p.0 as int,
            None => 0,
        },
        e,
    ) + match previous {
        Some(p) => p.1 as int,
        None => 0,
    };
    if !allowed {
        after == before
    } else if before is Some && before->Some_0.total() <= size {
        after == before
    } else {
        &&& after is Some
        &&& after->Some_0.total() == size
        &&& after->Some_0.encoder() == e
        &&& after->Some_0.previous() == (match previous {
            Some(p) => Some(p.0 as int),
            None => None,
        })
        &&& after->Some_0.total() <= STEP_BOUND + match previous {
            Some(p) => p.1 as int,
            None => 0,
        }
    }
}

/// Whether an edge is the given arrival at a vertex of column `i`.
pub open spec fn edge_is(edge: Option<InputEdge>, arrival: Option<Arrival>, i: int, e: int) -> bool {
    match (edge, arrival) {
        (None, None) => true,
        (Some(edge), Some(a)) => edge.total() == a.cost && edge.encoder() == e && (if i == 1 {
            edge.previous() is None
        } else {
            edge.previous() == Some(a.pred)
        }),
        _ => false,
    }
}


/// The arrival from a source is the best one so far plus one step.
pub proof fn lemma_pred_is_vertex(lat: Lattice, i: int, e: int, upto: int)
    requires
        i >= 2,
        0 <= upto <= lat.encoders.len(),
        lat.arrival(i, e, upto) is Some,
    ensures
        0 <= lat.arrival(i, e, upto)->Some_0.pred < upto,
        lat.vertex(i - 1, lat.arrival(i, e, upto)->Some_0.pred) is Some,
        lat.allowed(i - 1, e),
    decreases upto,
{
    if upto > 0 {
        if lat.arrival(i, e, upto - 1) is Some {
            lemma_pred_is_vertex(lat, i, e, upto - 1);
        }
    }
}

/// The best end is a vertex, and no vertex before it is cheaper.
pub proof fn lemma_best_end(lat: Lattice, upto: int)
    requires
        0 <= upto <= lat.encoders.len(),
    ensures
        lat.best_end(upto) matches Some(end) ==> 0 <= end < upto && lat.vertex(
            lat.input.len() as int,
            end,
        ) is Some,
        lat.best_end(upto) is None ==> forall|e: int|
            0 <= e < upto ==> (#[trigger] lat.vertex(lat.input.len() as int, e)) is None,
    decreases upto,
{
    if upto > 0 {
        lemma_best_end(lat, upto - 1);
    }
}

/// A character string as a minimal sequence of ECIs and bytes.
pub struct MinimalECIInput {
    bytes: Vec<u16>,
    fnc1: i16,
}

/// A sequence of bytes, FNC1 characters and ECIs that can be walked through.
pub trait ECIInput {
    /// The tokens of the sequence: a byte, the FNC1 token 1000, or 256 plus an ECI value.
    spec fn tokens(&self) -> Seq<u16>;

    /// The character that stands for FNC1.
    spec fn fnc1_character(&self) -> i16;

    /// The number of bytes, FNC1 characters and ECIs in the sequence.
    fn length(&self) -> (r: usize)
        ensures
            r == self.tokens().len(),
    ;

    /// The byte at `index` as a character, or the FNC1 character.
    fn charAt(&self, index: usize) -> (r: Result<char, Exceptions>)
        ensures
            index >= self.tokens().len() ==> r == Err::<char, Exceptions>(
                Exceptions::IndexOutOfBoundsException,
            ),
            index < self.tokens().len() && token_is_eci(self.tokens()[index as int]) ==> r == Err::<
                char,
                Exceptions,
            >(Exceptions::IllegalArgumentException),
            index < self.tokens().len() && !token_is_eci(self.tokens()[index as int]) ==> r == Ok::<
                char,
                Exceptions,
            >(token_char(self.tokens()[index as int], self.fnc1_character())),
    ;

    /// The characters from `start` to `end`, which must hold no ECI.
    fn subSequence(&self, start: usize, end: usize) -> (r: Result<Vec<char>, Exceptions>)
        ensures
            start > end || end > self.tokens().len() ==> r is Err && r->Err_0
                == Exceptions::IndexOutOfBoundsException,
            start <= end <= self.tokens().len() && (exists|i: int|
                start <= i < end && token_is_eci(#[trigger] self.tokens()[i])) ==> r is Err
                && r->Err_0 == Exceptions::IllegalArgumentException,
            start <= end <= self.tokens().len() && (forall|i: int|
                start <= i < end ==> !token_is_eci(#[trigger] self.tokens()[i])) ==> r is Ok
                && r->Ok_0@ == Seq::new(
                (end - start) as nat,
                |i: int| token_char(self.tokens()[start + i], self.fnc1_character()),
            ),
    ;

    /// Whether the value at `index` is an ECI.
    fn isECI(&self, index: u32) -> (r: Result<bool, Exceptions>)
        ensures
            index >= self.tokens().len() ==> r == Err::<bool, Exceptions>(
                Exceptions::IndexOutOfBoundsException,
            ),
            index < self.tokens().len() ==> r == Ok::<bool, Exceptions>(
                token_is_eci(self.tokens()[index as int]),
            ),
    ;

    /// The ECI value at `index`.  It gives the encoding of all bytes with
    /// a higher index until the next ECI or the end of the input.
    fn getECIValue(&self, index: usize) -> (r: Result<u32, Exceptions>)
        ensures
            index >= self.tokens().len() ==> r == Err::<u32, Exceptions>(
                Exceptions::IndexOutOfBoundsException,
            ),
            index < self.tokens().len() && !token_is_eci(self.tokens()[index as int]) ==> r == Err::<
                u32,
                Exceptions,
            >(Exceptions::IllegalArgumentException),
            index < self.tokens().len() && token_is_eci(self.tokens()[index as int]) ==> r == Ok::<
                u32,
                Exceptions,
            >((self.tokens()[index as int] - 256) as u32),
    ;

    /// Whether the `n` values from `index` on exist and are no ECIs.
    fn haveNCharacters(&self, index: usize, n: usize) -> (r: bool)
        ensures
            r == (index + n <= self.tokens().len() && forall|i: int|
                index <= i < index + n ==> !token_is_eci(#[trigger] self.tokens()[i])),
    ;
}

/// The low byte of a number.
pub open spec fn low_byte(v: int) -> u8 {
    (v % 256) as u8
}

/// The character that a token which is no ECI stands for: the FNC1
/// character for the FNC1 token, else the byte.
pub open spec fn token_char(token: u16, fnc1: i16) -> char {
    if token == FNC1_TOKEN {
        low_byte(fnc1 as int) as char
    } else {
        low_byte(token as int) as char
    }
}

/// A token as text: `ECI(n)` for an ECI, a character below U+0080
/// between apostrophes, any other character as it is.
pub open spec fn rendered_token(token: u16, fnc1: i16) -> Seq<char> {
    if token_is_eci(token) {
        seq!['E', 'C', 'I', '('] + decimal(token - 256).map_values(|b: u8| b as char) + seq![')']
    } else if low_byte(if token == FNC1_TOKEN {
        fnc1 as int
    } else {
        token as int
    }) < 128 {
        seq!['\'', token_char(token, fnc1), '\'']
    } else {
        seq![token_char(token, fnc1)]
    }
}

/// The first `n` tokens as text, with a comma and a space between them.
pub open spec fn rendered_tokens(tokens: Seq<u16>, fnc1: i16, n: int) -> Seq<char>
    decreases n,
{
    if n <= 0 {
        Seq::empty()
    } else {
        rendered_tokens(tokens, fnc1, n - 1) + if n > 1 {
            seq![',', ' ']
        } else {
            Seq::<char>::empty()
        } + rendered_token(tokens[n - 1], fnc1)
    }
}

impl ECIInput for MinimalECIInput {
    closed spec fn tokens(&self) -> Seq<u16> {
        self.bytes@
    }

    closed spec fn fnc1_character(&self) -> i16 {
        self.fnc1
    }

    fn length(&self) -> (r: usize) {
        self.bytes.len()
    }

    fn charAt(&self, index: usize) -> (r: Result<char, Exceptions>) {
        if index >= self.bytes.len() {
            return Err(Exceptions::IndexOutOfBoundsException);
        }
        let token = self.bytes[index];
        if token > 255 && token <= 999 {
            return Err(Exceptions::IllegalArgumentException);
        }
        Ok(Self::char_of(token, self.fnc1))
    }

    fn subSequence(&self, start: usize, end: usize) -> (r: Result<Vec<char>, Exceptions>) {
        if start > end || end > self.bytes.len() {
            return Err(Exceptions::IndexOutOfBoundsException);
        }
        let mut result: Vec<char> = Vec::new();
        let mut i = start;
        while i < end
            invariant
                start <= i <= end <= self.bytes.len(),
                forall|j: int| start <= j < i ==> !token_is_eci(#[trigger] self.bytes@[j]),
                result@ == Seq::new(
                    (i - start) as nat,
                    |j: int| token_char(self.bytes@[start + j], self.fnc1),
                ),
            decreases end - i,
        {
            let token = self.bytes[i];
            if token > 255 && token <= 999 {
                assert(token_is_eci(self.bytes@[i as int]));
                return Err(Exceptions::IllegalArgumentException);
            }
            result.push(Self::char_of(token, self.fnc1));
            i += 1;
            assert(result@ =~= Seq::new(
                (i - start) as nat,
                |j: int| token_char(self.bytes@[start + j], self.fnc1),
            ));
        }
        Ok(result)
    }

    fn isECI(&self, index: u32) -> (r: Result<bool, Exceptions>) {
        if index as usize >= self.bytes.len() {
            return Err(Exceptions::IndexOutOfBoundsException);
        }
        let token = self.bytes[index as usize];
        Ok(token > 255 && token <= 999)
    }

    fn getECIValue(&self, index: usize) -> (r: Result<u32, Exceptions>) {
        if index >= self.bytes.len() {
            return Err(Exceptions::IndexOutOfBoundsException);
        }
        let token = self.bytes[index];
        if !(token > 255 && token <= 999) {
            return Err(Exceptions::IllegalArgumentException);
        }
        Ok(token as u32 - 256)
    }

    fn haveNCharacters(&self, index: usize, n: usize) -> (r: bool) {
        let len = self.bytes.len();
        if index > len || n > len - index {
            return false;
        }
        let mut i: usize = 0;
        while i < n
            invariant
                i <= n,
                index + n <= len,
                len == self.bytes.len(),
                forall|j: int| index <= j < index + i ==> !token_is_eci(#[trigger] self.bytes@[j]),
            decreases n - i,
        {
            let token = self.bytes[index + i];
            if token > 255 && token <= 999 {
                assert(token_is_eci(self.bytes@[index + i]));
                return false;
            }
            i += 1;
        }
        true
    }
}

impl MinimalECIInput {
    /// The character that a token stands for.
    fn char_of(token: u16, fnc1: i16) -> (r: char)
        ensures
            r == token_char(token, fnc1),
    {
        let code: u8 = if token == FNC1_TOKEN {
            let f = fnc1 as i32;
            if f >= 0 {
                (f % 256) as u8
            } else {
                (255 - ((-f - 1) % 256)) as u8
            }
        } else {
            (token % 256) as u8
        };
        code as char
    }

    /// The tokens as text.
    pub fn to_string(&self) -> (r: String)
        ensures
            r@ == rendered_tokens(self.tokens(), self.fnc1_character(), self.tokens().len() as int),
    {
        let mut result = String::new();
        let mut i: usize = 0;
        while i < self.bytes.len()
            invariant
                i <= self.bytes.len(),
                result@ == rendered_tokens(self.bytes@, self.fnc1, i as int),
            decreases self.bytes.len() - i,
        {
            let ghost before = result@;
            if i > 0 {
                push_char(&mut result, ',');
                push_char(&mut result, ' ');
            }
            let ghost separated = result@;
            let token = self.bytes[i];
            if token > 255 && token <= 999 {
                push_char(&mut result, 'E');
                push_char(&mut result, 'C');
                push_char(&mut result, 'I');
                push_char(&mut result, '(');
                let ghost opened = result@;
                let digits = decimal_bytes((token - 256) as i32);
                let mut k: usize = 0;
                while k < digits.len()
                    invariant
                        k <= digits.len(),
                        result@ == opened + digits@.map_values(|b: u8| b as char).take(k as int),
                    decreases digits.len() - k,
                {
                    push_char(&mut result, digits[k] as char);
                    k += 1;
                    assert(result@ =~= opened + digits@.map_values(|b: u8| b as char).take(
                        k as int,
                    ));
                }
                assert(digits@.map_values(|b: u8| b as char).take(digits.len() as int)
                    =~= digits@.map_values(|b: u8| b as char));
                push_char(&mut result, ')');
                assert(result@ =~= separated + rendered_token(token, self.fnc1));
            } else {
                let c = Self::char_of(token, self.fnc1);
                if (c as u32) < 128 {
                    push_char(&mut result, '\'');
                    push_char(&mut result, c);
                    push_char(&mut result, '\'');
                } else {
                    push_char(&mut result, c);
                }
                assert(result@ =~= separated + rendered_token(token, self.fnc1));
            }
            i += 1;
            assert(result@ =~= rendered_tokens(self.bytes@, self.fnc1, i as int));
        }
        result
    }

    /// Constructs a minimal input for a string that can be written.
    ///
    /// `priority_charset` is the preferred character set: the encoders
    /// write with it every character that it has, if it is among them.
    /// `fnc1` is the character that stands for FNC1, or -1.
    pub fn new(string_to_encode: &str, priority_charset: Option<CharacterSetECI>, fnc1: i16) -> (r:
        Self)
        requires
            string_to_encode@.len() <= MAX_INPUT,
            chosen_encoders(string_to_encode@, priority_charset, fnc1).len() == 1 || lattice_of(
                string_to_encode@,
                priority_charset,
                fnc1,
            ).has_path(),
        ensures
            r.tokens() == input_tokens(string_to_encode@, priority_charset, fnc1),
            r.fnc1_character() == fnc1,
    {
        let encoder_set = ECIEncoderSet::new(string_to_encode, priority_charset, fnc1);
        let bytes = if encoder_set.len() == 1 {
            // optimization for the case when all can be encoded without ECI in ISO-8859-1
            let n = string_to_encode.unicode_len();
            let mut plain: Vec<u16> = Vec::new();
            let mut i: usize = 0;
            while i < n
                invariant
                    i <= n,
                    n == string_to_encode@.len(),
                    plain@ == plain_tokens(string_to_encode@, fnc1).take(i as int),
                decreases n - i,
            {
                let c = string_to_encode.get_char(i);
                let token: u16 = if ECIEncoderSet::stands_for_fnc1(c, fnc1) {
                    FNC1_TOKEN
                } else {
                    (c as u32) as u16
                };
                plain.push(token);
                i += 1;
                assert(plain@ =~= plain_tokens(string_to_encode@, fnc1).take(i as int));
            }
            assert(plain@ =~= plain_tokens(string_to_encode@, fnc1));
            plain
        } else {
            Self::encodeMinimally(string_to_encode, &encoder_set, fnc1)
        };
        Self { bytes, fnc1 }
    }

    /// Constructs a minimal input, if the string can be written.
    pub fn try_new(string_to_encode: &str, priority_charset: Option<CharacterSetECI>, fnc1: i16) -> (r:
        Option<Self>)
        requires
            string_to_encode@.len() <= MAX_INPUT,
        ensures
            r is Some <==> (chosen_encoders(string_to_encode@, priority_charset, fnc1).len() == 1
                || lattice_of(string_to_encode@, priority_charset, fnc1).has_path()),
            r matches Some(m) ==> m.tokens() == input_tokens(
                string_to_encode@,
                priority_charset,
                fnc1,
            ) && m.fnc1_character() == fnc1,
    {
        let encoder_set = ECIEncoderSet::new(string_to_encode, priority_charset, fnc1);
        if encoder_set.len() == 1 || Self::encode_minimally_checked(
            string_to_encode,
            &encoder_set,
            fnc1,
        ).is_some() {
            Some(Self::new(string_to_encode, priority_charset, fnc1))
        } else {
            None
        }
    }

    pub fn getFNC1Character(&self) -> (r: i16)
        ensures
            r == self.fnc1_character(),
    {
        self.fnc1
    }

    /// Whether the value at `index` is the FNC1 character.
    pub fn isFNC1(&self, index: usize) -> (r: Result<bool, Exceptions>)
        ensures
            index >= self.tokens().len() ==> r == Err::<bool, Exceptions>(
                Exceptions::IndexOutOfBoundsException,
            ),
            index < self.tokens().len() ==> r == Ok::<bool, Exceptions>(
                self.tokens()[index as int] == FNC1_TOKEN,
            ),
    {
        if index >= self.bytes.len() {
            return Err(Exceptions::IndexOutOfBoundsException);
        }
        Ok(self.bytes[index] == FNC1_TOKEN)
    }

    /// Puts an edge into its place in a column, unless a cheaper one or
    /// one as cheap stands there.
    fn addEdge(column: &mut Vec<Option<InputEdge>>, edge: InputEdge)
        requires
            edge.encoder() < old(column).len(),
        ensures
            final(column).len() == old(column).len(),
            forall|e: int|
                0 <= e < old(column).len() && e != edge.encoder() ==> #[trigger] final(column)[e]
                    == old(column)[e],
            final(column)[edge.encoder()] == (match old(column)[edge.encoder()] {
                None => Some(edge),
                Some(there) => if there.total() > edge.total() {
                    Some(edge)
                } else {
                    Some(there)
                },
            }),
    {
        let to = edge.encoderIndex;
        let replace = match column[to] {
            None => true,
            Some(there) => there.cachedTotalSize > edge.cachedTotalSize,
        };
        if replace {
            column.set(to, Some(edge));
        }
    }

    /// Adds the edges that write character `from` after the edge
    /// `previous`, one for each encoder that may write the character.
    fn addEdges(
        string_to_encode: &str,
        encoder_set: &ECIEncoderSet,
        column: &mut Vec<Option<InputEdge>>,
        from: usize,
        previous: Option<(usize, u128)>,
        fnc1: i16,
        Ghost(lat): Ghost<Lattice>,
    )
        requires
            encoder_set.wf(),
            lat == (Lattice {
                input: string_to_encode@,
                encoders: encoder_set.encoders(),
                priority: encoder_set.priority(),
                fnc1,
            }),
            from < string_to_encode@.len(),
            old(column).len() == encoder_set.encoders().len(),
            from == 0 <==> previous is None,
            previous matches Some(p) ==> p.0 < encoder_set.encoders().len() && p.1 + STEP_BOUND
                <= u128::MAX && lat.vertex(from as int, p.0 as int) is Some && lat.vertex(
                from as int,
                p.0 as int,
            )->Some_0.cost == p.1,
            previous matches Some(p) ==> forall|e: int|
                0 <= e < old(column).len() ==> edge_is(
                    #[trigger] old(column)[e],
                    lat.arrival(from + 1, e, p.0 as int),
                    from + 1,
                    e,
                ),
            previous is None ==> forall|e: int|
                0 <= e < old(column).len() ==> (#[trigger] old(column)[e]) is None,
        ensures
            final(column).len() == old(column).len(),
            previous matches Some(p) ==> forall|e: int|
                0 <= e < old(column).len() ==> edge_is(
                    #[trigger] final(column)[e],
                    lat.arrival(from + 1, e, p.0 + 1),
                    from + 1,
                    e,
                ),
            previous is None ==> forall|e: int|
                0 <= e < old(column).len() ==> edge_is(
                    #[trigger] final(column)[e],
                    lat.vertex(1, e),
                    1,
                    e,
                ),
            forall|e: int|
                0 <= e < old(column).len() ==> (#[trigger] final(column)[e]) == old(column)[e] || (
                final(column)[e] is Some && final(column)[e]->Some_0.total() <= STEP_BOUND
                    + match previous {
                    Some(p) => p.1 as int,
                    None => 0,
                }),
    {
        let ch = string_to_encode.get_char(from);
        let is_fnc1 = ECIEncoderSet::stands_for_fnc1(ch, fnc1);
        let count = encoder_set.len();
        let mut start: usize = 0;
        let mut end: usize = count;
        match encoder_set.getPriorityEncoderIndex() {
            Some(p) => {
                if is_fnc1 || encoder_set.canEncode(ch, p) {
                    start = p;
                    end = start + 1;
                }
            },
            None => {},
        }
        proof {
            assert forall|e: int| 0 <= e < count implies lat.allowed(from as int, e) == (start <= e
                < end && lat.usable(from as int, e)) by {}
        }
        let ghost before = column@;
        let mut i = start;
        while i < end
            invariant
                start <= i <= end <= count,
                count == encoder_set.encoders().len(),
                column.len() == count,
                before.len() == count,
                encoder_set.wf(),
                lat == (Lattice {
                    input: string_to_encode@,
                    encoders: encoder_set.encoders(),
                    priority: encoder_set.priority(),
                    fnc1,
                }),
                from < string_to_encode@.len(),
                ch == string_to_encode@[from as int],
                is_fnc1 == crate::common::eci_encoder_set::is_fnc1(ch, fnc1),
                previous matches Some(p) ==> p.1 + STEP_BOUND <= u128::MAX,
                forall|e: int|
                    0 <= e < count ==> lat.allowed(from as int, e) == (start <= e < end
                        && lat.usable(from as int, e)),
                forall|e: int|
                    0 <= e < count && !(start <= e < i) ==> #[trigger] column[e] == before[e],
                forall|e: int|
                    start <= e < i ==> relaxed(
                        before[e],
                        #[trigger] column[e],
                        lat.allowed(from as int, e),
                        lat.char_size(from as int, e),
                        e,
                        previous,
                    ),
            decreases end - i,
        {
            if is_fnc1 || encoder_set.canEncode(ch, i) {
                let edge = InputEdge::new(ch, encoder_set, i, previous, fnc1);
                Self::addEdge(column, edge);
            }
            i += 1;
        }
        proof {
            assert forall|e: int| 0 <= e < count implies relaxed(
                before[e],
                #[trigger] column[e],
                lat.allowed(from as int, e),
                lat.char_size(from as int, e),
                e,
                previous,
            ) by {
                if !(start <= e < end) {
                    assert(column[e] == before[e]);
                    assert(!lat.allowed(from as int, e));
                }
            }
            match previous {
                Some(p) => {
                    assert forall|e: int| 0 <= e < count implies edge_is(
                        #[trigger] column[e],
                        lat.arrival(from + 1, e, p.0 + 1),
                        from + 1,
                        e,
                    ) by {
                        assert(edge_is(before[e], lat.arrival(from + 1, e, p.0 as int), from + 1, e));
                        assert(relaxed(
                            before[e],
                            column[e],
                            lat.allowed(from as int, e),
                            lat.char_size(from as int, e),
                            e,
                            previous,
                        ));
                    }
                },
                None => {
                    assert forall|e: int| 0 <= e < count implies edge_is(
                        #[trigger] column[e],
                        lat.vertex(1, e),
                        1,
                        e,
                    ) by {
                        assert(before[e] is None);
                        assert(relaxed(
                            before[e],
                            column[e],
                            lat.allowed(from as int, e),
                            lat.char_size(from as int, e),
                            e,
                            previous,
                        ));
                    }
                },
            }
        }
    }

    /// The minimal tokens of a string that the encoder set can write.
    pub fn encodeMinimally(string_to_encode: &str, encoder_set: &ECIEncoderSet, fnc1: i16) -> (r: Vec<
        u16,
    >)
        requires
            encoder_set.wf(),
            string_to_encode@.len() <= MAX_INPUT,
            (Lattice {
                input: string_to_encode@,
                encoders: encoder_set.encoders(),
                priority: encoder_set.priority(),
                fnc1,
            }).has_path(),
        ensures
            r@ == (Lattice {
                input: string_to_encode@,
                encoders: encoder_set.encoders(),
                priority: encoder_set.priority(),
                fnc1,
            }).minimal_tokens(),
    {
        match Self::encode_minimally_checked(string_to_encode, encoder_set, fnc1) {
            Some(tokens) => tokens,
            None => Vec::new(),
        }
    }

    /// The minimal tokens of a string, if the encoder set can write it.
    pub fn encode_minimally_checked(string_to_encode: &str, encoder_set: &ECIEncoderSet, fnc1: i16) -> (r:
        Option<Vec<u16>>)
        requires
            encoder_set.wf(),
            string_to_encode@.len() <= MAX_INPUT,
        ensures
            r is Some <==> (Lattice {
                input: string_to_encode@,
                encoders: encoder_set.encoders(),
                priority: encoder_set.priority(),
                fnc1,
            }).has_path(),
            r matches Some(tokens) ==> tokens@ == (Lattice {
                input: string_to_encode@,
                encoders: encoder_set.encoders(),
                priority: encoder_set.priority(),
                fnc1,
            }).minimal_tokens(),
    {
        let ghost lat = Lattice {
            input: string_to_encode@,
            encoders: encoder_set.encoders(),
            priority: encoder_set.priority(),
            fnc1,
        };
        let input_length = string_to_encode.unicode_len();
        let count = encoder_set.len();
        if input_length == 0 {
            proof {
                lemma_best_end(lat, count as int);
                assert(lat.minimal_tokens() =~= Seq::<u16>::empty());
            }
            return Some(Vec::new());
        }
        // The vertices: one column for every character, one vertex for every encoder.
        let mut edges: Vec<Vec<Option<InputEdge>>> = Vec::new();
        let mut from: usize = 0;
        while from < input_length
            invariant
                from <= input_length,
                input_length == string_to_encode@.len(),
                input_length <= MAX_INPUT,
                count == encoder_set.encoders().len(),
                encoder_set.wf(),
                lat == (Lattice {
                    input: string_to_encode@,
                    encoders: encoder_set.encoders(),
                    priority: encoder_set.priority(),
                    fnc1,
                }),
                edges.len() == from,
                forall|i: int| 0 <= i < from ==> (#[trigger] edges[i]).len() == count,
                forall|i: int, e: int|
                    0 <= i < from && 0 <= e < count ==> edge_is(
                        #[trigger] edges[i][e],
                        lat.vertex(i + 1, e),
                        i + 1,
                        e,
                    ),
                forall|i: int, e: int|
                    0 <= i < from && 0 <= e < count ==> ((#[trigger] edges[i][e]) matches Some(edge)
                        ==> edge.total() <= (i + 1) * STEP_BOUND),
            decreases input_length - from,
        {
            let mut column: Vec<Option<InputEdge>> = Vec::new();
            let mut e: usize = 0;
            while e < count
                invariant
                    e <= count,
                    column.len() == e,
                    forall|j: int| 0 <= j < e ==> (#[trigger] column[j]) is None,
                decreases count - e,
            {
                column.push(None);
                e += 1;
            }
            if from == 0 {
                Self::addEdges(
                    string_to_encode,
                    encoder_set,
                    &mut column,
                    0,
                    None,
                    fnc1,
                    Ghost(lat),
                );
            } else {
                let sources = &edges[from - 1];
                let mut j: usize = 0;
                proof {
                    assert forall|e: int| 0 <= e < count implies edge_is(
                        #[trigger] column[e],
                        lat.arrival(from + 1, e, 0),
                        from + 1,
                        e,
                    ) by {}
                }
                while j < count
                    invariant
                        j <= count,
                        1 <= from < input_length,
                        input_length == string_to_encode@.len(),
                        input_length <= MAX_INPUT,
                        count == encoder_set.encoders().len(),
                        encoder_set.wf(),
                        lat == (Lattice {
                            input: string_to_encode@,
                            encoders: encoder_set.encoders(),
                            priority: encoder_set.priority(),
                            fnc1,
                        }),
                        column.len() == count,
                        sources.len() == count,
                        forall|e: int|
                            0 <= e < count ==> edge_is(
                                #[trigger] sources[e],
                                lat.vertex(from as int, e),
                                from as int,
                                e,
                            ),
                        forall|e: int|
                            0 <= e < count ==> ((#[trigger] sources[e]) matches Some(edge)
                                ==> edge.total() <= from * STEP_BOUND),
                        forall|e: int|
                            0 <= e < count ==> edge_is(
                                #[trigger] column[e],
                                lat.arrival(from + 1, e, j as int),
                                from + 1,
                                e,
                            ),
                        forall|e: int|
                            0 <= e < count ==> ((#[trigger] column[e]) matches Some(edge)
                                ==> edge.total() <= (from + 1) * STEP_BOUND),
                    decreases count - j,
                {
                    match sources[j] {
                        Some(edge) => {
                            let ghost before = column@;
                            Self::addEdges(
                                string_to_encode,
                                encoder_set,
                                &mut column,
                                from,
                                Some((j, edge.cachedTotalSize)),
                                fnc1,
                                Ghost(lat),
                            );
                        },
                        None => {
                            proof {
                                assert forall|e: int| 0 <= e < count implies edge_is(
                                    #[trigger] column[e],
                                    lat.arrival(from + 1, e, j + 1),
                                    from + 1,
                                    e,
                                ) by {
                                    assert(edge_is(
                                        column[e],
                                        lat.arrival(from + 1, e, j as int),
                                        from + 1,
                                        e,
                                    ));
                                    assert(edge_is(
                                        sources[j as int],
                                        lat.vertex(from as int, j as int),
                                        from as int,
                                        j as int,
                                    ));
                                }
                            }
                        },
                    }
                    j += 1;
                }
            }
            edges.push(column);
            from += 1;
        }
        // The cheapest vertex at the end of the input.
        let last = &edges[input_length - 1];
        let mut minimal: Option<usize> = None;
        let mut minimal_size: u128 = 0;
        let mut j: usize = 0;
        while j < count
            invariant
                j <= count,
                count == encoder_set.encoders().len(),
                last.len() == count,
                lat.input.len() == input_length,
                forall|e: int|
                    0 <= e < count ==> edge_is(
                        #[trigger] last[e],
                        lat.vertex(input_length as int, e),
                        input_length as int,
                        e,
                    ),
                match minimal {
                    Some(m) => lat.best_end(j as int) == Some(m as int) && m < j && last[m as int]
                        is Some && last[m as int]->Some_0.total() == minimal_size,
                    None => lat.best_end(j as int) is None,
                },
            decreases count - j,
        {
            proof {
                assert(edge_is(
                    last[j as int],
                    lat.vertex(input_length as int, j as int),
                    input_length as int,
                    j as int,
                ));
                match minimal {
                    Some(m) => {
                        assert(edge_is(
                            last[m as int],
                            lat.vertex(input_length as int, m as int),
                            input_length as int,
                            m as int,
                        ));
                    },
                    None => {},
                }
            }
            match last[j] {
                Some(edge) => {
                    if minimal.is_none() || edge.cachedTotalSize < minimal_size {
                        minimal_size = edge.cachedTotalSize;
                        minimal = Some(j);
                    }
                },
                None => {},
            }
            j += 1;
        }
        let end = match minimal {
            Some(m) => m,
            None => {
                return None;
            },
        };
        // Walk back along the edges to find the encoder of every character.
        let mut path: Vec<usize> = Vec::new();
        let mut k: usize = 0;
        while k < input_length
            invariant
                k <= input_length,
                path.len() == k,
            decreases input_length - k,
        {
            path.push(0);
            k += 1;
        }
        let mut current = end;
        let mut i = input_length;
        proof {
            lemma_best_end(lat, count as int);
        }
        while i > 0
            invariant
                i <= input_length,
                input_length == string_to_encode@.len(),
                lat.input.len() == input_length,
                count == encoder_set.encoders().len(),
                lat.encoders.len() == count,
                path.len() == input_length,
                edges.len() == input_length,
                forall|c: int| 0 <= c < input_length ==> (#[trigger] edges[c]).len() == count,
                forall|c: int, e: int|
                    0 <= c < input_length && 0 <= e < count ==> edge_is(
                        #[trigger] edges[c][e],
                        lat.vertex(c + 1, e),
                        c + 1,
                        e,
                    ),
                current < count,
                i > 0 ==> current == lat.path_encoder(end as int, i as int) && lat.vertex(
                    i as int,
                    current as int,
                ) is Some,
                forall|m: int|
                    i < m <= input_length ==> #[trigger] path[m - 1] == lat.path_encoder(
                        end as int,
                        m,
                    ) && lat.vertex(m, path[m - 1] as int) is Some && path[m - 1] < count,
            decreases i,
        {
            path.set(i - 1, current);
            proof {
                assert(edge_is(
                    edges[i - 1][current as int],
                    lat.vertex(i as int, current as int),
                    i as int,
                    current as int,
                ));
                if i >= 2 {
                    lemma_pred_is_vertex(lat, i as int, current as int, count as int);
                }
            }
            if i >= 2 {
                match edges[i - 1][current] {
                    Some(edge) => match edge.previous {
                        Some(p) => {
                            current = p;
                        },
                        None => {},
                    },
                    None => {},
                }
            }
            i -= 1;
        }
        // Write out the tokens: an ECI where the encoder changes, then the bytes.
        let mut tokens: Vec<u16> = Vec::new();
        let mut i: usize = 0;
        while i < input_length
            invariant
                i <= input_length,
                input_length == string_to_encode@.len(),
                encoder_set.wf(),
                lat == (Lattice {
                    input: string_to_encode@,
                    encoders: encoder_set.encoders(),
                    priority: encoder_set.priority(),
                    fnc1,
                }),
                count == encoder_set.encoders().len(),
                path.len() == input_length,
                forall|m: int|
                    0 < m <= input_length ==> #[trigger] path[m - 1] == lat.path_encoder(
                        end as int,
                        m,
                    ) && lat.vertex(m, path[m - 1] as int) is Some && path[m - 1] < count,
                tokens@ == lat.tokens_upto(end as int, i as int),
            decreases input_length - i,
        {
            let c = string_to_encode.get_char(i);
            let e = path[i];
            let before = if i == 0 {
                0
            } else {
                path[i - 1]
            };
            proof {
                assert(path[(i + 1) - 1] == lat.path_encoder(end as int, i + 1));
                if i > 0 {
                    assert(path[i - 1] == lat.path_encoder(end as int, i as int));
                }
                assert(lat.vertex(i + 1, e as int) is Some);
                assert(lat.allowed(i as int, e as int));
            }
            let ghost sofar = tokens@;
            if before != e {
                tokens.push(256 + encoder_set.getECIValue(e) as u16);
            }
            let ghost marked = tokens@;
            if ECIEncoderSet::stands_for_fnc1(c, fnc1) {
                tokens.push(FNC1_TOKEN);
            } else {
                let bytes = encoder_set.encode_char(c, e);
                let mut b: usize = 0;
                while b < bytes.len()
                    invariant
                        b <= bytes.len(),
                        tokens@ == marked + bytes@.map_values(|x: u8| x as u16).take(b as int),
                    decreases bytes.len() - b,
                {
                    tokens.push(bytes[b] as u16);
                    b += 1;
                    assert(tokens@ =~= marked + bytes@.map_values(|x: u8| x as u16).take(b as int));
                }
                assert(bytes@.map_values(|x: u8| x as u16).take(bytes.len() as int)
                    =~= bytes@.map_values(|x: u8| x as u16));
            }
            proof {
                assert(tokens@ =~= sofar + lat.segment(i as int, before as int, e as int));
            }
            i += 1;
        }
        Some(tokens)
    }
}

} // verus!

verus! {

/// The number of ECIs among tokens.
pub open spec fn count_ecis(tokens: Seq<u16>) -> int
    decreases tokens.len(),
{
    if tokens.len() == 0 {
        0
    } else {
        count_ecis(tokens.drop_last()) + if token_is_eci(tokens.last()) {
            1int
        } else {
            0int
        }
    }
}

/// The tokens without the ECIs.
pub open spec fn without_ecis(tokens: Seq<u16>) -> Seq<u16>
    decreases tokens.len(),
{
    if tokens.len() == 0 {
        Seq::empty()
    } else if token_is_eci(tokens.last()) {
        without_ecis(tokens.drop_last())
    } else {
        without_ecis(tokens.drop_last()).push(tokens.last())
    }
}

impl Lattice {
    /// A choice of one encoder for every character, each allowed for its character.
    pub open spec fn valid_path(self, path: Seq<int>) -> bool {
        &&& path.len() == self.input.len()
        &&& forall|i: int| 0 <= i < path.len() ==> self.allowed(i, #[trigger] path[i])
    }

    /// What the first `m` characters cost along a path: the bytes of each
    /// character, and an ECI wherever the encoder changes.
    pub open spec fn cost_of(self, path: Seq<int>, m: int) -> int
        decreases m,
    {
        if m <= 0 {
            0
        } else {
            self.cost_of(path, m - 1) + self.char_size(m - 1, path[m - 1]) + switch_cost(
                if m == 1 {
                    0
                } else {
                    path[m - 2]
                },
                path[m - 1],
            )
        }
    }

    /// The number of changes of encoder among the first `m` characters of a path.
    pub open spec fn switches_of(self, path: Seq<int>, m: int) -> int
        decreases m,
    {
        if m <= 0 {
            0
        } else {
            self.switches_of(path, m - 1) + if (if m == 1 {
                0
            } else {
                path[m - 2]
            }) != path[m - 1] {
                1int
            } else {
                0int
            }
        }
    }

    /// The bytes and FNC1 tokens of the first `m` characters along a path.
    pub open spec fn bodies_of(self, path: Seq<int>, m: int) -> Seq<u16>
        decreases m,
    {
        if m <= 0 {
            Seq::empty()
        } else {
            self.bodies_of(path, m - 1) + self.segment(m - 1, path[m - 1], path[m - 1])
        }
    }

    /// The path that ends with encoder `end` and goes back along the best arrivals.
    pub open spec fn path_to(self, end: int) -> Seq<int> {
        Seq::new(self.input.len(), |i: int| self.path_encoder(end, i + 1))
    }
}

/// Counting ECIs goes through concatenation.
pub proof fn lemma_count_ecis_add(a: Seq<u16>, b: Seq<u16>)
    ensures
        count_ecis(a + b) == count_ecis(a) + count_ecis(b),
        without_ecis(a + b) == without_ecis(a) + without_ecis(b),
    decreases b.len(),
{
    if b.len() == 0 {
        assert(a + b =~= a);
        assert(without_ecis(a) + without_ecis(b) =~= without_ecis(a));
    } else {
        assert((a + b).drop_last() =~= a + b.drop_last());
        assert((a + b).last() == b.last());
        lemma_count_ecis_add(a, b.drop_last());
        if !token_is_eci(b.last()) {
            assert(without_ecis(a + b) =~= without_ecis(a) + without_ecis(b));
        }
    }
}

/// Tokens that hold no ECI.
pub proof fn lemma_no_ecis(tokens: Seq<u16>)
    requires
        forall|i: int| 0 <= i < tokens.len() ==> !token_is_eci(#[trigger] tokens[i]),
    ensures
        count_ecis(tokens) == 0,
        without_ecis(tokens) == tokens,
    decreases tokens.len(),
{
    if tokens.len() > 0 {
        lemma_no_ecis(tokens.drop_last());
        assert(tokens.drop_last().push(tokens.last()) =~= tokens);
    }
}

/// The tokens of one character: one ECI if the encoder changes, and the
/// bytes of the character, as many as it is counted for.
pub proof fn lemma_segment(lat: Lattice, i: int, before: int, e: int)
    requires
        0 <= e < lat.encoders.len(),
    ensures
        lat.segment(i, before, e).len() == lat.char_size(i, e) + if before != e {
            1int
        } else {
            0int
        },
        count_ecis(lat.segment(i, before, e)) == if before != e {
            1int
        } else {
            0int
        },
        without_ecis(lat.segment(i, before, e)) == lat.segment(i, e, e),
{
    let marker = if before != e {
        seq![(256 + eci_value(lat.encoders[e])) as u16]
    } else {
        Seq::<u16>::empty()
    };
    let body = lat.segment(i, e, e);
    assert(Seq::<u16>::empty() + body =~= body);
    assert(lat.segment(i, before, e) =~= marker + body);
    lemma_no_ecis(body);
    lemma_count_ecis_add(marker, body);
    if before != e {
        let t = (256 + eci_value(lat.encoders[e])) as u16;
        assert(token_is_eci(t));
        assert(marker.drop_last() =~= Seq::<u16>::empty());
        assert(marker.last() == t);
        assert(count_ecis(Seq::<u16>::empty()) == 0);
        assert(without_ecis(Seq::<u16>::empty()) =~= Seq::<u16>::empty());
        assert(count_ecis(marker) == 1);
        assert(without_ecis(marker) =~= Seq::<u16>::empty());
        assert(Seq::<u16>::empty() + body =~= body);
    } else {
        assert(count_ecis(marker) == 0);
    }
}

/// An arrival costs what its predecessor costs and one step more.
pub proof fn lemma_arrival_step(lat: Lattice, i: int, e: int, upto: int)
    requires
        i >= 2,
        0 <= upto <= lat.encoders.len(),
        lat.arrival(i, e, upto) is Some,
    ensures
        lat.vertex(i - 1, lat.arrival(i, e, upto)->Some_0.pred) is Some,
        lat.arrival(i, e, upto)->Some_0.cost == lat.vertex(
            i - 1,
            lat.arrival(i, e, upto)->Some_0.pred,
        )->Some_0.cost + lat.char_size(i - 1, e) + switch_cost(
            lat.arrival(i, e, upto)->Some_0.pred,
            e,
        ),
    decreases upto,
{
    if upto > 0 {
        if lat.arrival(i, e, upto - 1) is Some {
            lemma_arrival_step(lat, i, e, upto - 1);
        }
    }
}

/// An arrival is no dearer than the way through any source that it covers.
pub proof fn lemma_arrival_min(lat: Lattice, i: int, e: int, upto: int, from: int)
    requires
        i >= 2,
        lat.allowed(i - 1, e),
        0 <= from < upto <= lat.encoders.len(),
        lat.vertex(i - 1, from) is Some,
    ensures
        lat.arrival(i, e, upto) is Some,
        lat.arrival(i, e, upto)->Some_0.cost <= lat.vertex(i - 1, from)->Some_0.cost
            + lat.char_size(i - 1, e) + switch_cost(from, e),
    decreases upto,
{
    if from < upto - 1 {
        lemma_arrival_min(lat, i, e, upto - 1, from);
    }
}

/// The best end is no dearer than any vertex at the end.
pub proof fn lemma_best_end_min(lat: Lattice, upto: int, e: int)
    requires
        0 <= e < upto <= lat.encoders.len(),
        lat.vertex(lat.input.len() as int, e) is Some,
    ensures
        lat.best_end(upto) is Some,
        lat.vertex(lat.input.len() as int, lat.best_end(upto)->Some_0) is Some,
        lat.vertex(lat.input.len() as int, lat.best_end(upto)->Some_0)->Some_0.cost <= lat.vertex(
            lat.input.len() as int,
            e,
        )->Some_0.cost,
    decreases upto,
{
    lemma_best_end(lat, upto);
    lemma_best_end(lat, upto - 1);
    if e < upto - 1 {
        lemma_best_end_min(lat, upto - 1, e);
    }
}

/// The vertex at the end of a prefix of a valid path exists and is no
/// dearer than the prefix.
pub proof fn lemma_prefix_bound(lat: Lattice, path: Seq<int>, m: int)
    requires
        lat.valid_path(path),
        1 <= m <= lat.input.len(),
    ensures
        lat.vertex(m, path[m - 1]) is Some,
        lat.vertex(m, path[m - 1])->Some_0.cost <= lat.cost_of(path, m),
    decreases m,
{
    assert(lat.allowed(m - 1, path[m - 1]));
    if m > 1 {
        lemma_prefix_bound(lat, path, m - 1);
        assert(lat.allowed(m - 2, path[m - 2]));
        lemma_arrival_min(lat, m, path[m - 1], lat.encoders.len() as int, path[m - 2]);
    } else {
        assert(lat.cost_of(path, 0) == 0);
    }
}

/// The minimal tokens are minimal: the best way through the lattice is no
/// dearer than any way to write the input.
pub proof fn lemma_minimal_cost(lat: Lattice, path: Seq<int>)
    requires
        lat.valid_path(path),
        lat.input.len() >= 1,
    ensures
        lat.best_end(lat.encoders.len() as int) is Some,
        lat.vertex(
            lat.input.len() as int,
            lat.best_end(lat.encoders.len() as int)->Some_0,
        ) is Some,
        lat.vertex(
            lat.input.len() as int,
            lat.best_end(lat.encoders.len() as int)->Some_0,
        )->Some_0.cost <= lat.cost_of(path, lat.input.len() as int),
{
    let n = lat.input.len() as int;
    lemma_prefix_bound(lat, path, n);
    assert(lat.allowed(n - 1, path[n - 1]));
    lemma_best_end_min(lat, lat.encoders.len() as int, path[n - 1]);
}

/// The encoders along the way back from a vertex are vertices themselves.
pub proof fn lemma_path_encoder(lat: Lattice, end: int, i: int)
    requires
        0 <= end < lat.encoders.len(),
        lat.vertex(lat.input.len() as int, end) is Some,
        1 <= i <= lat.input.len(),
    ensures
        0 <= lat.path_encoder(end, i) < lat.encoders.len(),
        lat.vertex(i, lat.path_encoder(end, i)) is Some,
        lat.allowed(i - 1, lat.path_encoder(end, i)),
    decreases lat.input.len() - i,
{
    if i < lat.input.len() {
        lemma_path_encoder(lat, end, i + 1);
        lemma_pred_is_vertex(lat, i + 1, lat.path_encoder(end, i + 1), lat.encoders.len() as int);
    }
}

/// The way back from a vertex at the end is a valid path; it costs what
/// the vertices along it say, and the tokens written along it are its
/// bodies with an ECI before each change of encoder.
pub proof fn lemma_path_to(lat: Lattice, end: int, m: int)
    requires
        0 <= end < lat.encoders.len(),
        lat.vertex(lat.input.len() as int, end) is Some,
        0 <= m <= lat.input.len(),
    ensures
        lat.valid_path(lat.path_to(end)),
        m >= 1 ==> lat.vertex(m, lat.path_to(end)[m - 1]) is Some && lat.vertex(
            m,
            lat.path_to(end)[m - 1],
        )->Some_0.cost == lat.cost_of(lat.path_to(end), m),
        lat.tokens_upto(end, m).len() == lat.cost_of(lat.path_to(end), m) - 2 * lat.switches_of(
            lat.path_to(end),
            m,
        ),
        count_ecis(lat.tokens_upto(end, m)) == lat.switches_of(lat.path_to(end), m),
        without_ecis(lat.tokens_upto(end, m)) == lat.bodies_of(lat.path_to(end), m),
    decreases m,
{
    let path = lat.path_to(end);
    assert forall|i: int| 0 <= i < path.len() implies lat.allowed(i, #[trigger] path[i]) by {
        lemma_path_encoder(lat, end, i + 1);
    }
    if m == 0 {
        assert(without_ecis(lat.tokens_upto(end, 0)) =~= lat.bodies_of(path, 0));
    } else {
        lemma_path_to(lat, end, m - 1);
        lemma_path_encoder(lat, end, m);
        let e = lat.path_encoder(end, m);
        assert(path[m - 1] == e);
        let before = lat.encoder_before(end, m - 1);
        if m >= 2 {
            lemma_path_encoder(lat, end, m - 1);
            assert(path[m - 2] == lat.path_encoder(end, m - 1));
            lemma_arrival_step(lat, m, e, lat.encoders.len() as int);
            assert(lat.vertex(m, e)->Some_0.pred == lat.path_encoder(end, m - 1));
        }
        lemma_segment(lat, m - 1, before, e);
        lemma_count_ecis_add(lat.tokens_upto(end, m - 1), lat.segment(m - 1, before, e));
    }
}

/// What the minimal tokens cost is the number of bytes and FNC1 tokens
/// written plus three for each ECI; and without the ECIs, the tokens are
/// the bytes of the characters in their order, each character written by
/// the encoder chosen for it.
pub proof fn lemma_minimal_tokens(lat: Lattice)
    requires
        lat.wf(),
        lat.input.len() >= 1,
        lat.has_path(),
    ensures
        ({
            let end = lat.best_end(lat.encoders.len() as int)->Some_0;
            let tokens = lat.minimal_tokens();
            &&& lat.valid_path(lat.path_to(end))
            &&& lat.vertex(lat.input.len() as int, end) is Some
            &&& lat.vertex(lat.input.len() as int, end)->Some_0.cost == (tokens.len() - count_ecis(
                tokens,
            )) + COST_PER_ECI * count_ecis(tokens)
            &&& without_ecis(tokens) == lat.bodies_of(lat.path_to(end), lat.input.len() as int)
        }),
{
    lemma_best_end(lat, lat.encoders.len() as int);
    let end = lat.best_end(lat.encoders.len() as int)->Some_0;
    lemma_path_to(lat, end, lat.input.len() as int);
}

} // verus!

verus! {

/// Where ISO-8859-1 alone is chosen, the tokens are the code points of
/// the input, with the FNC1 token where the FNC1 character stands, and
/// hold no ECI.
pub proof fn lemma_plain_tokens(input: Seq<char>, priority: Option<CharacterSetECI>, fnc1: i16, i: int)
    requires
        chosen_encoders(input, priority, fnc1).len() == 1,
        0 <= i < input.len(),
    ensures
        input_tokens(input, priority, fnc1).len() == input.len(),
        is_fnc1(input[i], fnc1) ==> input_tokens(input, priority, fnc1)[i] == FNC1_TOKEN,
        !is_fnc1(input[i], fnc1) ==> input_tokens(input, priority, fnc1)[i] <= 0xFF
            && input_tokens(input, priority, fnc1)[i] as u32 == input[i] as u32,
        !token_is_eci(input_tokens(input, priority, fnc1)[i]),
{
    crate::common::eci_encoder_set::lemma_latin1_alone(input, priority, fnc1, i);
}

} // verus!
