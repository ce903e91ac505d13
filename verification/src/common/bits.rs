//! Bit-level facts about 32-bit words.
//!
//! Every packed buffer in this crate stores bit `k` of a word at weight
//! `2^k`.  The lemmas below relate the machine operations on words to the
//! boolean value of single bits, so that the buffers can be specified as
//! sequences of booleans.

use vstd::prelude::*;

verus! {

/// Whether bit `k` (weight `2^k`) of `w` is set.  False outside `0..32`.
pub open spec fn word_bit(w: u32, k: int) -> bool {
    0 <= k < 32 && (w >> (k as u32)) & 1u32 == 1u32
}

/// The bits of a sequence of words, least significant bit of the first word first.
pub open spec fn unpack(ws: Seq<u32>) -> Seq<bool> {
    Seq::new(32 * ws.len(), |j: int| word_bit(ws[j / 32], j % 32))
}

/// The number written by a sequence of bits, most significant bit first.
pub open spec fn bits_value(s: Seq<bool>) -> nat
    decreases s.len(),
{
    if s.len() == 0 {
        0
    } else {
        2 * bits_value(s.drop_last()) + if s.last() {
            1nat
        } else {
            0nat
        }
    }
}

/// A word whose set bits are exactly those in `first..=last`.
pub open spec fn range_mask(first: u32, last: u32) -> u32 {
    (0xFFFF_FFFFu32 << first) & (0xFFFF_FFFFu32 >> ((31 - last) as u32))
}

/// The word with the bit order of `w` reversed.
pub open spec fn reversed_word(w: u32) -> u32 {
    let a = ((w >> 1u32) & 0x5555_5555u32) | ((w & 0x5555_5555u32) << 1u32);
    let b = ((a >> 2u32) & 0x3333_3333u32) | ((a & 0x3333_3333u32) << 2u32);
    let c = ((b >> 4u32) & 0x0F0F_0F0Fu32) | ((b & 0x0F0F_0F0Fu32) << 4u32);
    let d = ((c >> 8u32) & 0x00FF_00FFu32) | ((c & 0x00FF_00FFu32) << 8u32);
    (d >> 16u32) | (d << 16u32)
}

pub proof fn lemma_bit_set(w: u32, k: u32, j: u32)
    requires
        k < 32,
        j < 32,
    ensures
        word_bit(w | (1u32 << k), j as int) == (j == k || word_bit(w, j as int)),
{
    assert(((w | (1u32 << k)) >> j) & 1u32 == 1u32 <==> (j == k || (w >> j) & 1u32 == 1u32))
        by (bit_vector)
        requires
            k < 32,
            j < 32,
    ;
}

pub proof fn lemma_bit_unset(w: u32, k: u32, j: u32)
    requires
        k < 32,
        j < 32,
    ensures
        word_bit(w & !(1u32 << k), j as int) == (j != k && word_bit(w, j as int)),
{
    assert(((w & !(1u32 << k)) >> j) & 1u32 == 1u32 <==> (j != k && (w >> j) & 1u32 == 1u32))
        by (bit_vector)
        requires
            k < 32,
            j < 32,
    ;
}

pub proof fn lemma_bit_flip(w: u32, k: u32, j: u32)
    requires
        k < 32,
        j < 32,
    ensures
        word_bit(w ^ (1u32 << k), j as int) == (if j == k {
            !word_bit(w, j as int)
        } else {
            word_bit(w, j as int)
        }),
{
    assert(((w ^ (1u32 << k)) >> j) & 1u32 == 1u32 <==> (if j == k {
        !((w >> j) & 1u32 == 1u32)
    } else {
        (w >> j) & 1u32 == 1u32
    })) by (bit_vector)
        requires
            k < 32,
            j < 32,
    ;
}

pub proof fn lemma_bit_not(w: u32, j: u32)
    requires
        j < 32,
    ensures
        word_bit(!w, j as int) == !word_bit(w, j as int),
{
    assert(((!w) >> j) & 1u32 == 1u32 <==> !((w >> j) & 1u32 == 1u32)) by (bit_vector)
        requires
            j < 32,
    ;
}

pub proof fn lemma_bit_xor(a: u32, b: u32, j: u32)
    requires
        j < 32,
    ensures
        word_bit(a ^ b, j as int) == (word_bit(a, j as int) != word_bit(b, j as int)),
{
    assert(((a ^ b) >> j) & 1u32 == 1u32 <==> (((a >> j) & 1u32 == 1u32) != ((b >> j) & 1u32
        == 1u32))) by (bit_vector)
        requires
            j < 32,
    ;
}

pub proof fn lemma_bit_or(a: u32, b: u32, j: u32)
    requires
        j < 32,
    ensures
        word_bit(a | b, j as int) == (word_bit(a, j as int) || word_bit(b, j as int)),
{
    assert(((a | b) >> j) & 1u32 == 1u32 <==> (((a >> j) & 1u32 == 1u32) || ((b >> j) & 1u32
        == 1u32))) by (bit_vector)
        requires
            j < 32,
    ;
}

pub proof fn lemma_bit_and(a: u32, b: u32, j: u32)
    requires
        j < 32,
    ensures
        word_bit(a & b, j as int) == (word_bit(a, j as int) && word_bit(b, j as int)),
{
    assert(((a & b) >> j) & 1u32 == 1u32 <==> (((a >> j) & 1u32 == 1u32) && ((b >> j) & 1u32
        == 1u32))) by (bit_vector)
        requires
            j < 32,
    ;
}

pub proof fn lemma_bit_shr(w: u32, s: u32, j: u32)
    requires
        s < 32,
        j < 32,
    ensures
        word_bit(w >> s, j as int) == word_bit(w, j + s),
{
    if j + s < 32 {
        let t: u32 = (j + s) as u32;
        assert(((w >> s) >> j) & 1u32 == (w >> t) & 1u32) by (bit_vector)
            requires
                s < 32,
                j < 32,
                t == j + s,
        ;
    } else {
        assert(((w >> s) >> j) & 1u32 == 0u32) by (bit_vector)
            requires
                s < 32,
                j < 32,
                j + s >= 32,
        ;
    }
}

pub proof fn lemma_bit_shl(w: u32, s: u32, j: u32)
    requires
        s < 32,
        j < 32,
    ensures
        word_bit(w << s, j as int) == word_bit(w, j - s),
{
    if j >= s {
        let t: u32 = (j - s) as u32;
        assert(((w << s) >> j) & 1u32 == (w >> t) & 1u32) by (bit_vector)
            requires
                s < 32,
                j < 32,
                j >= s,
                t == j - s,
        ;
    } else {
        assert(((w << s) >> j) & 1u32 == 0u32) by (bit_vector)
            requires
                s < 32,
                j < 32,
                j < s,
        ;
    }
}

pub proof fn lemma_bit_range_mask(first: u32, last: u32, j: u32)
    requires
        first < 32,
        last < 32,
        j < 32,
    ensures
        word_bit(range_mask(first, last), j as int) == (first <= j <= last),
{
    let s: u32 = (31 - last) as u32;
    assert((((0xFFFF_FFFFu32 << first) & (0xFFFF_FFFFu32 >> s)) >> j) & 1u32 == 1u32 <==> (first
        <= j && j + s <= 31)) by (bit_vector)
        requires
            first < 32,
            s < 32,
            j < 32,
    ;
}

pub proof fn lemma_bit_reversed(w: u32, j: u32)
    requires
        j < 32,
    ensures
        word_bit(reversed_word(w), j as int) == word_bit(w, 31 - j),
{
    let t: u32 = (31 - j) as u32;
    assert((reversed_word(w) >> j) & 1u32 == (w >> t) & 1u32) by (bit_vector)
        requires
            j < 32,
            t == 31 - j,
    ;
}

/// Appending a bit doubles the value and adds the bit.
pub proof fn lemma_bits_value_push(s: Seq<bool>, b: bool)
    ensures
        bits_value(s.push(b)) == 2 * bits_value(s) + if b {
            1nat
        } else {
            0nat
        },
{
    assert(s.push(b).drop_last() =~= s);
}

/// A sequence of `n` bits writes a number below `2^n`.
pub proof fn lemma_bits_value_bound(s: Seq<bool>)
    ensures
        bits_value(s) < vstd::arithmetic::power2::pow2(s.len()),
    decreases s.len(),
{
    if s.len() == 0 {
        vstd::arithmetic::power2::lemma2_to64();
    } else {
        lemma_bits_value_bound(s.drop_last());
        vstd::arithmetic::power2::lemma_pow2_unfold(s.len());
    }
}

/// The zero word has no bit set, and a word without set bits is zero.
pub proof fn lemma_zero_word(w: u32)
    ensures
        w == 0 <==> (forall|j: int| 0 <= j < 32 ==> !word_bit(w, j)),
{
    broadcast use vstd::std_specs::bits::axiom_u32_trailing_zeros;

    if w == 0 {
        assert forall|j: int| 0 <= j < 32 implies !word_bit(w, j) by {
            let k = j as u32;
            assert((0u32 >> k) & 1u32 == 0u32) by (bit_vector);
        }
    } else {
        let t = vstd::std_specs::bits::u32_trailing_zeros(w);
        assert(word_bit(w, t as int));
    }
}

/// Index of the lowest set bit of a nonzero word.
pub fn lowest_set_bit(w: u32) -> (k: u32)
    requires
        w != 0,
    ensures
        k < 32,
        word_bit(w, k as int),
        forall|j: int| 0 <= j < k ==> !word_bit(w, j),
{
    broadcast use vstd::std_specs::bits::axiom_u32_trailing_zeros;

    let k = w.trailing_zeros();
    assert forall|j: int| 0 <= j < k implies !word_bit(w, j) by {
        let ju = j as u32;
        assert((w >> ju) & 1u32 == 0u32);
    }
    k
}

/// Index of the highest set bit of a nonzero word.
pub fn highest_set_bit(w: u32) -> (k: u32)
    requires
        w != 0,
    ensures
        k < 32,
        word_bit(w, k as int),
        forall|j: int| k < j < 32 ==> !word_bit(w, j),
{
    broadcast use vstd::std_specs::bits::axiom_u32_leading_zeros;

    let z = w.leading_zeros();
    let k = 31 - z;
    assert forall|j: int| k < j < 32 implies !word_bit(w, j) by {
        let ju = j as u32;
        assert((w >> ju) & 1u32 == 0u32);
    }
    assert(word_bit(w, k as int)) by {
        let ku = k;
        assert((w >> ku) & 1u32 != 0u32);
        assert((w >> ku) & 1u32 == 0u32 || (w >> ku) & 1u32 == 1u32) by (bit_vector);
    }
    k
}

/// Reverses the order of the 32 bits of a word.
pub fn reverse_word(w: u32) -> (r: u32)
    ensures
        r == reversed_word(w),
        forall|j: int| 0 <= j < 32 ==> word_bit(r, j) == word_bit(w, 31 - j),
{
    let a = ((w >> 1u32) & 0x5555_5555u32) | ((w & 0x5555_5555u32) << 1u32);
    let b = ((a >> 2u32) & 0x3333_3333u32) | ((a & 0x3333_3333u32) << 2u32);
    let c = ((b >> 4u32) & 0x0F0F_0F0Fu32) | ((b & 0x0F0F_0F0Fu32) << 4u32);
    let d = ((c >> 8u32) & 0x00FF_00FFu32) | ((c & 0x00FF_00FFu32) << 8u32);
    let r = (d >> 16u32) | (d << 16u32);
    proof {
        assert forall|j: int| 0 <= j < 32 implies word_bit(r, j) == word_bit(w, 31 - j) by {
            lemma_bit_reversed(w, j as u32);
        }
    }
    r
}

/// A word with exactly the bits `first..=last` set.
pub fn make_range_mask(first: u32, last: u32) -> (m: u32)
    requires
        first < 32,
        last < 32,
    ensures
        m == range_mask(first, last),
        forall|j: int| 0 <= j < 32 ==> word_bit(m, j) == (first <= j <= last),
{
    let m = (0xFFFF_FFFFu32 << first) & (0xFFFF_FFFFu32 >> (31 - last));
    proof {
        assert forall|j: int| 0 <= j < 32 implies word_bit(m, j) == (first <= j <= last) by {
            lemma_bit_range_mask(first, last, j as u32);
        }
    }
    m
}

} // verus!
