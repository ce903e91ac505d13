//! A growable one-dimensional buffer of bits, packed into 32-bit words.

use crate::common::bits::{
    bits_value, lemma_bit_and, lemma_bit_flip, lemma_bit_not, lemma_bit_or, lemma_bit_set,
    lemma_bit_shl, lemma_bit_shr, lemma_bit_xor, lemma_bits_value_bound, lemma_bits_value_push,
    lemma_zero_word, lowest_set_bit, make_range_mask, range_mask, reverse_word, unpack, word_bit,
};
use crate::exceptions::Exceptions;
use vstd::prelude::*;

verus! {

/// A simple, fast array of bits, represented compactly by an array of words.
///
/// Bit `i` lives in word `i / 32` at weight `2^(i % 32)`.  The array has a
/// logical length `size` and a capacity of 32 bits per allocated word; the
/// cells between `size` and the capacity are padding.
#[derive(Debug, Hash)]
pub struct BitArray {
    bits: Vec<u32>,
    size: usize,
}

/// A sequence of `n` cleared words.
pub open spec fn zero_words(n: nat) -> Seq<u32> {
    Seq::new(n, |i: int| 0u32)
}

/// The number of words allocated when growth to `new_size` bits is needed:
/// room for `ceil(new_size / 0.75)` bits.
pub open spec fn grown_word_count(new_size: nat) -> nat {
    (((4 * new_size + 2) / 3 + 31) / 32) as nat
}

/// The words of a buffer after making room for `new_size` bits.
pub open spec fn grown_words(ws: Seq<u32>, new_size: nat) -> Seq<u32> {
    if new_size > 32 * ws.len() {
        ws + zero_words((grown_word_count(new_size) - ws.len()) as nat)
    } else {
        ws
    }
}

/// `cells` with every cell in `start..end` set.
pub open spec fn with_range_set(cells: Seq<bool>, start: int, end: int) -> Seq<bool> {
    Seq::new(cells.len(), |j: int| cells[j] || start <= j < end)
}

/// `cells` after the bits of `tail` are OR-ed in from position `at` on.
pub open spec fn with_bits_or(cells: Seq<bool>, at: int, tail: Seq<bool>) -> Seq<bool> {
    Seq::new(cells.len(), |j: int| cells[j] || (at <= j < at + tail.len() && tail[j - at]))
}

/// The `n` low bits of `value`, most significant first.
pub open spec fn low_bits_msb_first(value: u32, n: int) -> Seq<bool> {
    Seq::new(n as nat, |k: int| word_bit(value, n - 1 - k))
}

/// The first `size` cells in reverse order, followed by cleared padding.
pub open spec fn reversed_cells(cells: Seq<bool>, size: int) -> Seq<bool> {
    Seq::new(cells.len(), |j: int| j < size && cells[size - 1 - j])
}

/// Cell-wise exclusive or; cells that `b` does not have count as cleared.
pub open spec fn xor_cells(a: Seq<bool>, b: Seq<bool>) -> Seq<bool> {
    Seq::new(a.len(), |j: int| a[j] != (j < b.len() && b[j]))
}

/// The cells of a grown buffer are the old cells followed by cleared ones.
pub proof fn lemma_grown_cells(ws: Seq<u32>, new_size: nat)
    ensures
        unpack(grown_words(ws, new_size)).len() >= 32 * ws.len(),
        unpack(grown_words(ws, new_size)).len() >= new_size,
        new_size <= 32 * ws.len() ==> grown_words(ws, new_size) == ws,
        forall|j: int|
            0 <= j < unpack(grown_words(ws, new_size)).len() ==> #[trigger] unpack(
                grown_words(ws, new_size),
            )[j] == (j < 32 * ws.len() && unpack(ws)[j]),
{
    lemma_zero_word(0u32);
}

/// The first `n` cells as text: `X` for a set bit and `.` for a cleared
/// one, with a space before every eighth bit.
pub open spec fn rendered_bits(cells: Seq<bool>, n: int) -> Seq<char>
    decreases n,
{
    if n <= 0 {
        Seq::empty()
    } else {
        let before = rendered_bits(cells, n - 1);
        let spaced = if (n - 1) % 8 == 0 {
            before.push(' ')
        } else {
            before
        };
        spaced.push(
            if cells[n - 1] {
                'X'
            } else {
                '.'
            },
        )
    }
}

/// The byte written by the eight cells starting at `p`, first cell most significant.
pub open spec fn byte_at(cells: Seq<bool>, p: int) -> nat {
    bits_value(cells.subrange(p, p + 8))
}

impl View for BitArray {
    type V = Seq<bool>;

    /// The logical content: the first `size` cells.
    open spec fn view(&self) -> Seq<bool> {
        self.cells().take(self.size() as int)
    }
}

impl PartialEq for BitArray {
    /// Arrays are equal if they have the same size and the same words.
    fn eq(&self, other: &Self) -> (r: bool) {
        if self.size != other.size || self.bits.len() != other.bits.len() {
            return false;
        }
        let mut i: usize = 0;
        while i < self.bits.len()
            invariant
                i <= self.bits.len(),
                self.bits.len() == other.bits.len(),
                self.size == other.size,
                self.bits@.take(i as int) == other.bits@.take(i as int),
            decreases self.bits.len() - i,
        {
            if self.bits[i] != other.bits[i] {
                return false;
            }
            i += 1;
            assert(self.bits@.take(i as int) =~= self.bits@.take(i - 1).push(self.bits@[i - 1]));
            assert(other.bits@.take(i as int) =~= other.bits@.take(i - 1).push(other.bits@[i - 1]));
        }
        assert(self.bits@.take(self.bits@.len() as int) =~= self.bits@);
        assert(other.bits@.take(other.bits@.len() as int) =~= other.bits@);
        true
    }
}

impl Eq for BitArray {

}

impl vstd::std_specs::cmp::PartialEqSpecImpl for BitArray {
    open spec fn obeys_eq_spec() -> bool {
        true
    }

    open spec fn eq_spec(&self, other: &Self) -> bool {
        self.size() == other.size() && self.words() == other.words()
    }
}

impl Clone for BitArray {
    fn clone(&self) -> (r: Self)
        ensures
            r.words() == self.words(),
            r.size() == self.size(),
    {
        let mut bits: Vec<u32> = Vec::new();
        let mut i: usize = 0;
        while i < self.bits.len()
            invariant
                i <= self.bits.len(),
                bits@ == self.bits@.take(i as int),
            decreases self.bits.len() - i,
        {
            bits.push(self.bits[i]);
            i += 1;
            assert(bits@ =~= self.bits@.take(i as int));
        }
        assert(bits@ =~= self.bits@);
        BitArray { bits, size: self.size }
    }
}

impl BitArray {
    /// The allocated words.
    pub closed spec fn words(&self) -> Seq<u32> {
        self.bits@
    }

    /// The logical length in bits.
    pub closed spec fn size(&self) -> nat {
        self.size as nat
    }

    /// The number of allocated cells.
    pub open spec fn capacity(&self) -> nat {
        32 * self.words().len()
    }

    /// All allocated cells, padding included.
    pub open spec fn cells(&self) -> Seq<bool> {
        unpack(self.words())
    }

    /// The logical length fits in the allocated words.
    pub open spec fn wf(&self) -> bool {
        self.size() <= self.capacity()
    }

    /// No padding cell is set.
    pub open spec fn padding_clear(&self) -> bool {
        forall|j: int| self.size() <= j < self.capacity() ==> !self.cells()[j]
    }

    /// An empty array without allocated words.
    pub fn new() -> (r: Self)
        ensures
            r.size() == 0,
            r.words() == Seq::<u32>::empty(),
            r.wf(),
    {
        Self { bits: Vec::new(), size: 0 }
    }

    /// An array of `size` cleared bits.
    pub fn with_size(size: usize) -> (r: Self)
        ensures
            r.size() == size,
            r.words() == zero_words(((size + 31) / 32) as nat),
            r.wf(),
    {
        Self { bits: BitArray::makeArray(size), size }
    }

    /// An array over the given words with the given logical length.
    pub fn with_initial_values(bits: Vec<u32>, size: usize) -> (r: Self)
        ensures
            r.size() == size,
            r.words() == bits@,
    {
        Self { bits, size }
    }

    pub fn getSize(&self) -> (r: usize)
        ensures
            r == self.size(),
    {
        self.size
    }

    pub fn getSizeInBytes(&self) -> (r: usize)
        ensures
            r == (self.size() + 7) / 8,
    {
        let whole = self.size / 8;
        if self.size % 8 == 0 {
            whole
        } else {
            whole + 1
        }
    }

    /// Makes room for `new_size` bits, keeping every allocated cell.
    fn ensure_capacity(&mut self, new_size: usize)
        ensures
            final(self).size() == old(self).size(),
            final(self).words() == grown_words(old(self).words(), new_size as nat),
            final(self).capacity() >= new_size,
            final(self).capacity() >= old(self).capacity(),
    {
        let have = self.bits.len();
        if new_size / 32 >= have && (new_size / 32 > have || new_size % 32 != 0) {
            let target: u128 = ((new_size as u128) * 4 + 2) / 3;
            let want: usize = ((target + 31) / 32) as usize;
            assert(want == grown_word_count(new_size as nat));
            assert(want >= have);
            self.bits.resize(want, 0u32);
            assert(self.bits@ =~= grown_words(old(self).bits@, new_size as nat));
        }
    }

    /// Whether bit `i` is set.
    pub fn get(&self, i: usize) -> (r: bool)
        requires
            i < self.capacity(),
        ensures
            r == self.cells()[i as int],
    {
        (self.bits[i / 32] >> ((i % 32) as u32)) & 1u32 == 1u32
    }

    /// Sets bit `i`.
    pub fn set(&mut self, i: usize)
        requires
            i < old(self).capacity(),
        ensures
            final(self).size() == old(self).size(),
            final(self).words().len() == old(self).words().len(),
            final(self).cells() == old(self).cells().update(i as int, true),
    {
        let idx = i / 32;
        let k = (i % 32) as u32;
        let w = self.bits[idx];
        let nw = w | (1u32 << k);
        self.bits.set(idx, nw);
        proof {
            assert forall|j: int| 0 <= j < 32 implies word_bit(nw, j) == (j == k || word_bit(w, j)) by {
                lemma_bit_set(w, k, j as u32);
            }
            assert(self.cells() =~= old(self).cells().update(i as int, true));
        }
    }

    /// Flips bit `i`.
    pub fn flip(&mut self, i: usize)
        requires
            i < old(self).capacity(),
        ensures
            final(self).size() == old(self).size(),
            final(self).words().len() == old(self).words().len(),
            final(self).cells() == old(self).cells().update(i as int, !old(self).cells()[i as int]),
    {
        let idx = i / 32;
        let k = (i % 32) as u32;
        let w = self.bits[idx];
        let nw = w ^ (1u32 << k);
        self.bits.set(idx, nw);
        proof {
            assert forall|j: int| 0 <= j < 32 implies word_bit(nw, j) == (if j == k {
                !word_bit(w, j)
            } else {
                word_bit(w, j)
            }) by {
                lemma_bit_flip(w, k, j as u32);
            }
            assert(self.cells() =~= old(self).cells().update(
                i as int,
                !old(self).cells()[i as int],
            ));
        }
    }

    /// Index of the first bit at or after `from` whose value is `value`, or
    /// `size` if there is none below `size`.
    fn next_with_value(&self, from: usize, value: bool) -> (r: usize)
        requires
            self.wf(),
        ensures
            from >= self.size() ==> r == self.size(),
            from < self.size() ==> from <= r <= self.size(),
            forall|j: int| from <= j < r ==> self.cells()[j] != value,
            r < self.size() ==> self.cells()[r as int] == value,
    {
        if from >= self.size {
            return self.size;
        }
        let flip_mask: u32 = if value {
            0
        } else {
            0xFFFF_FFFF
        };
        let ghost cells = self.cells();
        let last_word = (self.size - 1) / 32;
        let mut off = from / 32;
        let mut cur = (self.bits[off] ^ flip_mask) & make_range_mask((from % 32) as u32, 31);
        proof {
            assert forall|k: int| 0 <= k < 32 implies word_bit(cur, k) == (32 * off + k >= from
                && cells[32 * off + k] == value) by {
                lemma_bit_xor(self.bits[off as int], flip_mask, k as u32);
                lemma_bit_and(
                    self.bits[off as int] ^ flip_mask,
                    make_range_mask_spec((from % 32) as u32),
                    k as u32,
                );
                lemma_flip_mask(flip_mask, value, k);
            }
        }
        while cur == 0
            invariant
                self.wf(),
                cells == self.cells(),
                from < self.size,
                last_word == (self.size - 1) / 32,
                from / 32 <= off <= last_word,
                off < self.bits.len(),
                flip_mask == if value {
                    0u32
                } else {
                    0xFFFF_FFFFu32
                },
                forall|j: int| from <= j < 32 * off ==> cells[j] != value,
                forall|k: int|
                    0 <= k < 32 ==> word_bit(cur, k) == (32 * off + k >= from && cells[32 * off
                        + k] == value),
            decreases last_word - off,
        {
            proof {
                lemma_zero_word(cur);
                assert forall|j: int| from <= j < 32 * (off + 1) implies cells[j] != value by {
                    if j >= 32 * off {
                        assert(!word_bit(cur, j - 32 * off));
                    }
                }
            }
            if off == last_word {
                return self.size;
            }
            off += 1;
            cur = self.bits[off] ^ flip_mask;
            proof {
                assert forall|k: int| 0 <= k < 32 implies word_bit(cur, k) == (32 * off + k >= from
                    && cells[32 * off + k] == value) by {
                    lemma_bit_xor(self.bits[off as int], flip_mask, k as u32);
                    lemma_flip_mask(flip_mask, value, k);
                }
            }
        }
        let k = lowest_set_bit(cur);
        let result = off * 32 + k as usize;
        proof {
            assert forall|j: int| from <= j < result implies cells[j] != value by {
                if j >= 32 * off {
                    assert(!word_bit(cur, j - 32 * off));
                }
            }
            assert(word_bit(cur, k as int));
        }
        if result < self.size {
            result
        } else {
            self.size
        }
    }

    /// Index of the first set bit at or after `from`, or `size` if none is set.
    pub fn getNextSet(&self, from: usize) -> (r: usize)
        requires
            self.wf(),
        ensures
            from >= self.size() ==> r == self.size(),
            from < self.size() ==> from <= r <= self.size(),
            forall|j: int| from <= j < r ==> !self.cells()[j],
            r < self.size() ==> self.cells()[r as int],
    {
        self.next_with_value(from, true)
    }

    /// Index of the first unset bit at or after `from`, or `size` if all are set.
    pub fn getNextUnset(&self, from: usize) -> (r: usize)
        requires
            self.wf(),
        ensures
            from >= self.size() ==> r == self.size(),
            from < self.size() ==> from <= r <= self.size(),
            forall|j: int| from <= j < r ==> self.cells()[j],
            r < self.size() ==> !self.cells()[r as int],
    {
        self.next_with_value(from, false)
    }

    /// Replaces the whole word that holds bit `i`: bit `k` of `new_bits`
    /// becomes bit `32 * (i / 32) + k` of the array.
    pub fn setBulk(&mut self, i: usize, new_bits: u32)
        requires
            i < old(self).capacity(),
        ensures
            final(self).size() == old(self).size(),
            final(self).words() == old(self).words().update(i as int / 32, new_bits),
    {
        self.bits.set(i / 32, new_bits);
    }

    /// Sets the bits in `start..end`.
    pub fn setRange(&mut self, start: usize, end: usize) -> (r: Result<(), Exceptions>)
        requires
            old(self).wf(),
        ensures
            r is Err <==> (end < start || end > old(self).size()),
            r is Err ==> r == Err::<(), Exceptions>(Exceptions::IllegalArgumentException)
                && *final(self) == *old(self),
            r is Ok ==> final(self).size() == old(self).size() && final(self).words().len() == old(
                self,
            ).words().len() && final(self).cells() == with_range_set(
                old(self).cells(),
                start as int,
                end as int,
            ),
    {
        if end < start || end > self.size {
            return Err(Exceptions::IllegalArgumentException);
        }
        if end == start {
            assert(self.cells() =~= with_range_set(old(self).cells(), start as int, end as int));
            return Ok(());
        }
        let last = end - 1;
        let first_int = start / 32;
        let last_int = last / 32;
        let ghost before = self.cells();
        let mut i = first_int;
        while i <= last_int
            invariant
                first_int == start / 32,
                last_int == last / 32,
                start <= last < self.size,
                self.size == old(self).size,
                self.bits.len() == old(self).bits.len(),
                self.wf(),
                before == old(self).cells(),
                first_int <= i <= last_int + 1,
                forall|j: int|
                    0 <= j < 32 * self.bits.len() ==> #[trigger] self.cells()[j] == (before[j] || (j
                        / 32 < i && start <= j <= last)),
            decreases last_int + 1 - i,
        {
            let first_bit: u32 = if i > first_int {
                0
            } else {
                (start % 32) as u32
            };
            let last_bit: u32 = if i < last_int {
                31
            } else {
                (last % 32) as u32
            };
            let mask = make_range_mask(first_bit, last_bit);
            let w = self.bits[i];
            let nw = w | mask;
            let ghost prev = self.cells();
            self.bits.set(i, nw);
            proof {
                assert forall|j: int| 0 <= j < 32 * self.bits.len() implies #[trigger] self.cells()[j]
                    == (before[j] || (j / 32 < i + 1 && start <= j <= last)) by {
                    let q = j / 32;
                    let k = j % 32;
                    assert(j == 32 * q + k);
                    assert(start == 32 * first_int + start % 32);
                    assert(last == 32 * last_int + last % 32);
                    assert(prev[j] == (before[j] || (q < i && start <= j <= last)));
                    if q == i {
                        lemma_bit_or(w, mask, k as u32);
                        assert(prev[j] == word_bit(w, k));
                        assert(self.cells()[j] == word_bit(nw, k));
                        assert(word_bit(mask, k) == (first_bit <= k <= last_bit));
                        assert((first_bit <= k <= last_bit) == (start <= j <= last));
                    } else {
                        assert(self.cells()[j] == prev[j]);
                    }
                }
            }
            i += 1;
        }
        proof {
            assert forall|j: int| 0 <= j < 32 * self.bits.len() implies self.cells()[j] == (
            before[j] || start <= j < end) by {
                assert(j == 32 * (j / 32) + j % 32);
                assert(last == 32 * last_int + last % 32);
            }
        }
        assert(self.cells() =~= with_range_set(old(self).cells(), start as int, end as int));
        Ok(())
    }

    /// Clears all bits.
    pub fn clear(&mut self)
        ensures
            final(self).size() == old(self).size(),
            final(self).words() == zero_words(old(self).words().len()),
    {
        let max = self.bits.len();
        let mut i: usize = 0;
        while i < max
            invariant
                max == self.bits.len(),
                self.bits.len() == old(self).bits.len(),
                self.size == old(self).size,
                i <= max,
                forall|j: int| 0 <= j < i ==> self.bits[j] == 0u32,
            decreases max - i,
        {
            self.bits.set(i, 0);
            i += 1;
        }
        assert(self.bits@ =~= zero_words(old(self).words().len()));
    }

    /// Whether every bit in `start..end` equals `value`.
    pub fn isRange(&self, start: usize, end: usize, value: bool) -> (r: Result<bool, Exceptions>)
        requires
            self.wf(),
        ensures
            r is Err <==> (end < start || end > self.size()),
            r is Err ==> r == Err::<bool, Exceptions>(Exceptions::IllegalArgumentException),
            r matches Ok(b) ==> b == (forall|j: int| start <= j < end ==> self.cells()[j] == value),
    {
        if end < start || end > self.size {
            return Err(Exceptions::IllegalArgumentException);
        }
        if end == start {
            return Ok(true);
        }
        let next = self.next_with_value(start, !value);
        Ok(next >= end)
    }

    /// The allocated words: the first word holds the first 32 bits, least
    /// significant bit first.
    pub fn getBitArray(&self) -> (r: &Vec<u32>)
        ensures
            r@ == self.words(),
    {
        &self.bits
    }

    /// The cells after making room for `new_size` bits.
    pub open spec fn grown_cells(&self, new_size: nat) -> Seq<bool> {
        unpack(grown_words(self.words(), new_size))
    }

    /// Appends one bit.  A padding cell that was set stays set.
    pub fn appendBit(&mut self, bit: bool)
        requires
            old(self).wf(),
            old(self).size() < usize::MAX,
        ensures
            final(self).size() == old(self).size() + 1,
            final(self).wf(),
            final(self).cells() == with_bits_or(
                old(self).grown_cells(old(self).size() + 1),
                old(self).size() as int,
                seq![bit],
            ),
            old(self).padding_clear() ==> final(self).padding_clear() && final(self)@ == old(
                self,
            )@.push(bit),
    {
        let base = self.size;
        self.ensure_capacity(self.size + 1);
        let ghost ext = self.cells();
        proof {
            lemma_grown_cells(old(self).words(), (base + 1) as nat);
        }
        if bit {
            let idx = base / 32;
            let k = (base % 32) as u32;
            let w = self.bits[idx];
            let nw = w | (1u32 << k);
            self.bits.set(idx, nw);
            proof {
                assert forall|j: int| 0 <= j < 32 implies word_bit(nw, j) == (j == k || word_bit(
                    w,
                    j,
                )) by {
                    lemma_bit_set(w, k, j as u32);
                }
                assert(self.cells() =~= ext.update(base as int, true));
            }
        }
        self.size = base + 1;
        proof {
            assert(self.cells() =~= with_bits_or(ext, base as int, seq![bit]));
            if old(self).padding_clear() {
                assert(self@ =~= old(self)@.push(bit));
            }
        }
    }

    /// Appends the `num_bits` low bits of `value`, most significant first.
    pub fn appendBits(&mut self, value: u32, num_bits: usize) -> (r: Result<(), Exceptions>)
        requires
            old(self).wf(),
            num_bits <= 32 ==> old(self).size() + num_bits <= usize::MAX,
        ensures
            r is Err <==> num_bits > 32,
            r is Err ==> r == Err::<(), Exceptions>(Exceptions::IllegalArgumentException)
                && *final(self) == *old(self),
            r is Ok ==> {
                &&& final(self).size() == old(self).size() + num_bits
                &&& final(self).wf()
                &&& final(self).cells() == with_bits_or(
                    old(self).grown_cells((old(self).size() + num_bits) as nat),
                    old(self).size() as int,
                    low_bits_msb_first(value, num_bits as int),
                )
                &&& old(self).padding_clear() ==> final(self).padding_clear() && final(self)@
                    == old(self)@ + low_bits_msb_first(value, num_bits as int)
            },
    {
        if num_bits > 32 {
            return Err(Exceptions::IllegalArgumentException);
        }
        let base = self.size;
        proof {
            lemma_grown_cells(old(self).words(), (base + num_bits) as nat);
        }
        if num_bits == 0 {
            proof {
                assert(self.cells() =~= with_bits_or(
                    old(self).grown_cells((old(self).size() + num_bits) as nat),
                    base as int,
                    low_bits_msb_first(value, 0),
                ));
                if old(self).padding_clear() {
                    assert(self@ =~= old(self)@ + low_bits_msb_first(value, 0));
                }
            }
            return Ok(());
        }
        self.ensure_capacity(base + num_bits);
        let ghost ext = self.cells();
        let mut left = num_bits;
        let mut next = base;
        while left > 0
            invariant
                left <= num_bits <= 32,
                next == base + (num_bits - left),
                base + num_bits <= usize::MAX,
                base + num_bits <= 32 * self.bits.len(),
                ext.len() == 32 * self.bits.len(),
                self.size == base,
                forall|j: int|
                    0 <= j < 32 * self.bits.len() ==> #[trigger] self.cells()[j] == (ext[j] || (base
                        <= j < next && word_bit(value, base + num_bits - 1 - j))),
            decreases left,
        {
            left -= 1;
            let ghost prev = self.cells();
            if (value >> (left as u32)) & 1u32 == 1u32 {
                let idx = next / 32;
                let k = (next % 32) as u32;
                let w = self.bits[idx];
                let nw = w | (1u32 << k);
                self.bits.set(idx, nw);
                proof {
                    assert forall|j: int| 0 <= j < 32 implies word_bit(nw, j) == (j == k
                        || word_bit(w, j)) by {
                        lemma_bit_set(w, k, j as u32);
                    }
                    assert(self.cells() =~= prev.update(next as int, true));
                }
            }
            proof {
                assert(word_bit(value, left as int) == ((value >> (left as u32)) & 1u32 == 1u32));
                assert forall|j: int| 0 <= j < 32 * self.bits.len() implies #[trigger] self.cells()[j]
                    == (ext[j] || (base <= j < next + 1 && word_bit(
                    value,
                    base + num_bits - 1 - j,
                ))) by {
                    assert(prev[j] == (ext[j] || (base <= j < next && word_bit(
                        value,
                        base + num_bits - 1 - j,
                    ))));
                }
            }
            next += 1;
        }
        let ghost filled = self.cells();
        proof {
            let tail = low_bits_msb_first(value, num_bits as int);
            assert(tail.len() == num_bits);
            assert forall|j: int| 0 <= j < ext.len() implies #[trigger] filled[j] == (ext[j] || (
            base <= j < base + tail.len() && tail[j - base])) by {
                assert(self.cells()[j] == (ext[j] || (base <= j < next && word_bit(
                    value,
                    base + num_bits - 1 - j,
                ))));
                if base <= j < base + num_bits {
                    assert(tail[j - base] == word_bit(value, num_bits - 1 - (j - base)));
                }
            }
            assert(filled =~= with_bits_or(ext, base as int, tail));
        }
        self.size = next;
        proof {
            let tail = low_bits_msb_first(value, num_bits as int);
            assert(self.cells() == filled);
            if old(self).padding_clear() {
                assert(self@ =~= old(self)@ + tail);
            }
        }
        Ok(())
    }

    /// Appends the logical content of `other`.
    pub fn appendBitArray(&mut self, other: BitArray)
        requires
            old(self).wf(),
            other.wf(),
            old(self).size() + other.size() <= usize::MAX,
        ensures
            final(self).size() == old(self).size() + other.size(),
            final(self).wf(),
            final(self).cells() == with_bits_or(
                old(self).grown_cells(old(self).size() + other.size()),
                old(self).size() as int,
                other@,
            ),
            old(self).padding_clear() ==> final(self).padding_clear() && final(self)@ == old(
                self,
            )@ + other@,
    {
        let base = self.size;
        let other_size = other.size;
        self.ensure_capacity(base + other_size);
        let ghost ext = self.cells();
        proof {
            lemma_grown_cells(old(self).words(), (base + other_size) as nat);
        }
        let mut i: usize = 0;
        while i < other_size
            invariant
                other.wf(),
                other_size == other.size,
                i <= other_size,
                base + other_size <= usize::MAX,
                self.size == base + i,
                base + other_size <= 32 * self.bits.len(),
                ext.len() == 32 * self.bits.len(),
                forall|j: int|
                    0 <= j < 32 * self.bits.len() ==> #[trigger] self.cells()[j] == (ext[j] || (base
                        <= j < base + i && other.cells()[j - base])),
            decreases other_size - i,
        {
            let ghost prev = self.cells();
            let ghost prev_words = self.words();
            let b = other.get(i);
            proof {
                lemma_grown_cells(prev_words, (base + i + 1) as nat);
            }
            self.appendBit(b);
            proof {
                assert(grown_words(prev_words, (base + i + 1) as nat) == prev_words);
                assert(self.cells().len() == prev.len());
                assert(self.cells().len() == 32 * self.bits.len());
                assert(prev.len() == 32 * prev_words.len());
                assert forall|j: int| 0 <= j < 32 * self.bits.len() implies #[trigger] self.cells()[j]
                    == (ext[j] || (base <= j < base + i + 1 && other.cells()[j - base])) by {
                    assert(prev[j] == (ext[j] || (base <= j < base + i && other.cells()[j
                        - base])));
                }
            }
            i += 1;
        }
        proof {
            assert(self.cells() =~= with_bits_or(ext, base as int, other@));
            if old(self).padding_clear() {
                assert(self@ =~= old(self)@ + other@);
            }
        }
    }

    /// Exclusive or with `other`, cell by cell.
    pub fn xor(&mut self, other: &BitArray) -> (r: Result<(), Exceptions>)
        ensures
            r is Err <==> old(self).size() != other.size(),
            r is Err ==> r == Err::<(), Exceptions>(Exceptions::IllegalArgumentException)
                && *final(self) == *old(self),
            r is Ok ==> final(self).size() == old(self).size() && final(self).words().len() == old(
                self,
            ).words().len() && final(self).cells() == xor_cells(old(self).cells(), other.cells()),
    {
        if self.size != other.size {
            return Err(Exceptions::IllegalArgumentException);
        }
        let n = if self.bits.len() < other.bits.len() {
            self.bits.len()
        } else {
            other.bits.len()
        };
        let mut i: usize = 0;
        while i < n
            invariant
                i <= n,
                n <= self.bits.len(),
                n <= other.bits.len(),
                n == self.bits.len() || n == other.bits.len(),
                self.bits.len() == old(self).bits.len(),
                self.size == old(self).size,
                forall|m: int|
                    0 <= m < self.bits.len() ==> #[trigger] self.bits[m] == if m < i {
                        old(self).bits[m] ^ other.bits[m]
                    } else {
                        old(self).bits[m]
                    },
            decreases n - i,
        {
            let w = self.bits[i] ^ other.bits[i];
            self.bits.set(i, w);
            i += 1;
        }
        proof {
            assert forall|j: int| 0 <= j < 32 * self.bits.len() implies #[trigger] self.cells()[j]
                == (old(self).cells()[j] != (j < other.cells().len() && other.cells()[j])) by {
                let m = j / 32;
                assert(j == 32 * m + j % 32);
                if m < n {
                    lemma_bit_xor(old(self).bits[m], other.bits[m], (j % 32) as u32);
                }
            }
            assert(self.cells() =~= xor_cells(old(self).cells(), other.cells()));
        }
        Ok(())
    }

    /// Writes `num_bytes` bytes into `array` from index `offset` on; each
    /// byte takes eight consecutive bits starting at `bit_offset`, the first
    /// bit most significant.
    pub fn toBytes(&self, bit_offset: usize, array: &mut Vec<u8>, offset: usize, num_bytes: usize)
        requires
            bit_offset + 8 * num_bytes <= self.capacity(),
            bit_offset + 8 * num_bytes <= usize::MAX,
            offset + num_bytes <= old(array).len(),
        ensures
            final(array).len() == old(array).len(),
            forall|i: int|
                offset <= i < offset + num_bytes ==> #[trigger] final(array)[i] as nat == byte_at(
                    self.cells(),
                    bit_offset + 8 * (i - offset),
                ),
            forall|i: int|
                0 <= i < old(array).len() && !(offset <= i < offset + num_bytes)
                    ==> #[trigger] final(array)[i] == old(array)[i],
    {
        let mut pos = bit_offset;
        let mut i: usize = 0;
        while i < num_bytes
            invariant
                i <= num_bytes,
                pos == bit_offset + 8 * i,
                bit_offset + 8 * num_bytes <= self.capacity(),
                bit_offset + 8 * num_bytes <= usize::MAX,
                offset + num_bytes <= array.len(),
                array.len() == old(array).len(),
                forall|m: int|
                    offset <= m < offset + i ==> #[trigger] array[m] as nat == byte_at(
                        self.cells(),
                        bit_offset + 8 * (m - offset),
                    ),
                forall|m: int|
                    0 <= m < array.len() && !(offset <= m < offset + i) ==> #[trigger] array[m]
                        == old(array)[m],
            decreases num_bytes - i,
        {
            let ghost start = pos as int;
            assert(self.cells().len() == self.capacity());
            assert(self.cells().subrange(start, start) =~= Seq::<bool>::empty());
            let mut the_byte: u32 = 0;
            let mut j: usize = 0;
            while j < 8
                invariant
                    j <= 8,
                    0 <= start,
                    pos == start + j,
                    start + 8 <= self.capacity(),
                    start + 8 <= usize::MAX,
                    self.cells().len() == self.capacity(),
                    the_byte == bits_value(self.cells().subrange(start, start + j)),
                    the_byte < 256,
                decreases 8 - j,
            {
                let b = self.get(pos);
                proof {
                    lemma_bits_value_push(self.cells().subrange(start, start + j), b);
                    assert(self.cells().subrange(start, start + j).push(b) =~= self.cells().subrange(
                        start,
                        start + j + 1,
                    ));
                    lemma_bits_value_bound(self.cells().subrange(start, start + j + 1));
                    vstd::arithmetic::power2::lemma2_to64();
                    if j + 1 < 8 {
                        vstd::arithmetic::power2::lemma_pow2_strictly_increases(
                            (j + 1) as nat,
                            8,
                        );
                    }
                    lemma_bits_value_bound(self.cells().subrange(start, start + j));
                    vstd::arithmetic::power2::lemma_pow2_strictly_increases(j as nat, 8);
                }
                the_byte = the_byte * 2 + if b {
                    1
                } else {
                    0
                };
                pos += 1;
                j += 1;
            }
            array.set(offset + i, the_byte as u8);
            i += 1;
        }
    }

    /// The first `used` words in reverse order, each with its bits
    /// reversed, followed by cleared words.
    fn reversed_words(&self, used: usize) -> (new_bits: Vec<u32>)
        requires
            used <= self.words().len(),
        ensures
            new_bits@.len() == self.words().len(),
            forall|p: int|
                0 <= p < 32 * new_bits@.len() ==> #[trigger] unpack(new_bits@)[p] == (p < 32 * used
                    && self.cells()[32 * used - 1 - p]),
    {
        let total = self.bits.len();
        let mut new_bits: Vec<u32> = vec![0u32; total];
        let mut i: usize = 0;
        while i < used
            invariant
                i <= used <= total,
                total == self.bits.len(),
                new_bits.len() == total,
                forall|m: int|
                    0 <= m < total ==> #[trigger] new_bits[m] == if used - 1 - i < m <= used - 1 {
                        crate::common::bits::reversed_word(self.bits[used - 1 - m])
                    } else {
                        0u32
                    },
            decreases used - i,
        {
            let r = reverse_word(self.bits[i]);
            new_bits.set(used - 1 - i, r);
            i += 1;
        }
        proof {
            lemma_zero_word(0u32);
            assert forall|p: int| 0 <= p < 32 * total implies #[trigger] unpack(new_bits@)[p] == (p
                < 32 * used && self.cells()[32 * used - 1 - p]) by {
                let m = p / 32;
                let k = p % 32;
                assert(p == 32 * m + k);
                if m < used {
                    crate::common::bits::lemma_bit_reversed(self.bits[used - 1 - m], k as u32);
                    let q = 32 * used - 1 - p;
                    assert(q == 32 * (used - 1 - m) + (31 - k));
                    assert(q / 32 == used - 1 - m);
                    assert(q % 32 == 31 - k);
                }
            }
        }
        new_bits
    }

    /// Moves the bits of the first `used` words down by `left_offset`
    /// places; cleared bits come in from above.
    fn shift_down(words: &mut Vec<u32>, used: usize, left_offset: u32)
        requires
            1 <= used <= old(words).len(),
            0 < left_offset < 32,
            forall|p: int| 32 * used <= p < 32 * old(words).len() ==> !#[trigger] unpack(old(words)@)[p],
        ensures
            final(words).len() == old(words).len(),
            forall|p: int|
                0 <= p < 32 * old(words).len() ==> #[trigger] unpack(final(words)@)[p] == (p
                    + left_offset < 32 * used && unpack(old(words)@)[p + left_offset]),
    {
        let total = words.len();
        let ghost stage = unpack(words@);
        let up: u32 = 32 - left_offset;
        let mut current = words[0] >> left_offset;
        proof {
            assert forall|k: int| 0 <= k < 32 implies #[trigger] word_bit(current, k) == (k
                + left_offset < 32 && stage[k + left_offset]) by {
                lemma_bit_shr(words[0], left_offset, k as u32);
                if k + left_offset < 32 {
                    let p = k + left_offset;
                    assert(p / 32 == 0);
                    assert(p % 32 == p);
                    assert(stage[p] == word_bit(words[0], p));
                }
            }
        }
        let mut i: usize = 1;
        while i < used
            invariant
                1 <= i <= used <= total,
                words.len() == total,
                0 < left_offset < 32,
                up == 32 - left_offset,
                stage.len() == 32 * total,
                forall|k: int|
                    0 <= k < 32 ==> #[trigger] word_bit(current, k) == (k + left_offset < 32
                        && stage[32 * (i - 1) + k + left_offset]),
                forall|p: int|
                    0 <= p < 32 * total ==> #[trigger] unpack(words@)[p] == if p < 32 * (i - 1) {
                        stage[p + left_offset]
                    } else {
                        stage[p]
                    },
            decreases used - i,
        {
            let next = words[i];
            let ghost prev = unpack(words@);
            let ghost cur0 = current;
            current = current | (next << up);
            words.set(i - 1, current);
            proof {
                assert forall|k: int| 0 <= k < 32 implies #[trigger] word_bit(current, k)
                    == stage[32 * (i - 1) + k + left_offset] by {
                    lemma_bit_or(cur0, next << up, k as u32);
                    lemma_bit_shl(next, up, k as u32);
                    if k >= up {
                        let p = 32 * i + (k - up);
                        assert(prev[p] == stage[p]);
                        assert(p / 32 == i as int);
                        assert(p % 32 == k - up);
                    } else {
                        assert(!word_bit(next, k - up));
                    }
                }
            }
            let ghost filled = current;
            current = next >> left_offset;
            proof {
                assert forall|k: int| 0 <= k < 32 implies #[trigger] word_bit(current, k) == (k
                    + left_offset < 32 && stage[32 * i + k + left_offset]) by {
                    lemma_bit_shr(next, left_offset, k as u32);
                    if k + left_offset < 32 {
                        let p = 32 * i + (k + left_offset);
                        assert(prev[p] == stage[p]);
                        assert(p / 32 == i as int);
                        assert(p % 32 == k + left_offset);
                    }
                }
                assert forall|p: int| 0 <= p < 32 * total implies #[trigger] unpack(words@)[p]
                    == if p < 32 * i {
                    stage[p + left_offset]
                } else {
                    stage[p]
                } by {
                    let m = p / 32;
                    assert(p == 32 * m + p % 32);
                    if m == i - 1 {
                        assert(word_bit(filled, p % 32) == stage[32 * (i - 1) + p % 32
                            + left_offset]);
                    } else {
                        assert(unpack(words@)[p] == prev[p]);
                    }
                }
            }
            i += 1;
        }
        let ghost prev = unpack(words@);
        words.set(used - 1, current);
        proof {
            assert forall|p: int| 0 <= p < 32 * total implies #[trigger] unpack(words@)[p] == (p
                + left_offset < 32 * used && stage[p + left_offset]) by {
                let m = p / 32;
                assert(p == 32 * m + p % 32);
                if m == used - 1 {
                    assert(word_bit(current, p % 32) == (p % 32 + left_offset < 32 && stage[32 * (
                    used - 1) + p % 32 + left_offset]));
                } else {
                    assert(unpack(words@)[p] == prev[p]);
                    if m >= used {
                        assert(!stage[p]);
                    }
                }
            }
        }
    }

    /// Reverses the logical content and clears the padding.
    pub fn reverse(&mut self)
        requires
            old(self).wf(),
        ensures
            final(self).size() == old(self).size(),
            final(self).words().len() == old(self).words().len(),
            final(self).wf(),
            final(self).cells() == reversed_cells(old(self).cells(), old(self).size() as int),
            final(self).padding_clear(),
            final(self)@ == old(self)@.reverse(),
    {
        let size = self.size;
        let ghost before = self.cells();
        // First reverse the words that hold logical bits, word by word.
        let used = if size == 0 {
            0
        } else {
            (size - 1) / 32 + 1
        };
        let mut new_bits = self.reversed_words(used);
        let ghost stage = unpack(new_bits@);
        // Then shift everything down if the size is not a multiple of 32.
        if size % 32 != 0 {
            let left_offset: u32 = (32 - size % 32) as u32;
            Self::shift_down(&mut new_bits, used, left_offset);
        }
        let ghost shifted = unpack(new_bits@);
        proof {
            lemma_reverse_stages(before, stage, shifted, size as int, used as int);
        }
        self.bits = new_bits;
        proof {
            assert(self.cells() == shifted);
            lemma_reversed_view(before, size as int);
        }
    }

    /// The bits as text, eight to a group.
    pub fn to_string(&self) -> (r: String)
        requires
            self.wf(),
        ensures
            r@ == rendered_bits(self@, self.size() as int),
    {
        let mut text = String::new();
        let mut i: usize = 0;
        while i < self.size
            invariant
                i <= self.size,
                self.wf(),
                text@ == rendered_bits(self@, i as int),
            decreases self.size - i,
        {
            if i % 8 == 0 {
                text.append(" ");
            }
            proof {
                reveal_strlit(" ");
                reveal_strlit("X");
                reveal_strlit(".");
            }
            if self.get(i) {
                text.append("X");
            } else {
                text.append(".");
            }
            i += 1;
            assert(text@ =~= rendered_bits(self@, i as int));
        }
        text
    }

    fn makeArray(size: usize) -> (r: Vec<u32>)
        ensures
            r@ == zero_words(((size + 31) / 32) as nat),
    {
        let n = if size % 32 == 0 {
            size / 32
        } else {
            size / 32 + 1
        };
        let r = vec![0u32; n];
        assert(r@ =~= zero_words(((size + 31) / 32) as nat));
        r
    }
}

/// The mask that keeps the bits from `first` upwards.
pub open spec fn make_range_mask_spec(first: u32) -> u32 {
    range_mask(first, 31)
}

proof fn lemma_flip_mask(flip_mask: u32, value: bool, k: int)
    requires
        0 <= k < 32,
        flip_mask == if value {
            0u32
        } else {
            0xFFFF_FFFFu32
        },
    ensures
        word_bit(flip_mask, k) == !value,
{
    let ku = k as u32;
    if value {
        lemma_zero_word(0u32);
    } else {
        lemma_bit_not(0u32, ku);
        lemma_zero_word(0u32);
        assert(!0u32 == 0xFFFF_FFFFu32) by (bit_vector);
    }
}

} // verus!

verus! {

/// The two stages of a reversal, whole words first and then the shift,
/// make the reversal of the logical content.
proof fn lemma_reverse_stages(
    before: Seq<bool>,
    stage: Seq<bool>,
    shifted: Seq<bool>,
    size: int,
    used: int,
)
    requires
        0 <= size <= before.len(),
        used == (if size == 0 {
            0
        } else {
            (size - 1) / 32 + 1
        }),
        32 * used <= before.len(),
        stage.len() == before.len(),
        shifted.len() == before.len(),
        forall|p: int| 0 <= p < stage.len() ==> #[trigger] stage[p] == (p < 32 * used && before[32
            * used - 1 - p]),
        size % 32 == 0 ==> shifted == stage,
        size % 32 != 0 ==> forall|p: int|
            0 <= p < shifted.len() ==> #[trigger] shifted[p] == (p + (32 - size % 32) < 32 * used
                && stage[p + (32 - size % 32)]),
    ensures
        shifted == reversed_cells(before, size),
{
    assert forall|p: int| 0 <= p < before.len() implies #[trigger] shifted[p] == (p < size
        && before[size - 1 - p]) by {
        if size % 32 == 0 {
            assert(size == used * 32);
            assert(shifted[p] == stage[p]);
        } else {
            let lo = 32 - size % 32;
            assert(lo == 32 * used - size);
            if p + lo < 32 * used {
                assert(stage[p + lo] == before[32 * used - 1 - (p + lo)]);
            }
        }
    }
    assert(shifted =~= reversed_cells(before, size));
}

/// The reversed cells hold the reversed logical content, and clear padding.
proof fn lemma_reversed_view(cells: Seq<bool>, size: int)
    requires
        0 <= size <= cells.len(),
    ensures
        reversed_cells(cells, size).take(size) == cells.take(size).reverse(),
        forall|j: int| size <= j < cells.len() ==> !#[trigger] reversed_cells(cells, size)[j],
{
    assert(reversed_cells(cells, size).take(size) =~= cells.take(size).reverse());
}

/// A bit that was just set reads as set.
pub proof fn lemma_set_then_get(cells: Seq<bool>, i: int)
    requires
        0 <= i < cells.len(),
    ensures
        cells.update(i, true)[i],
{
}

/// Flipping the same bit twice restores every cell.
pub proof fn lemma_flip_twice(cells: Seq<bool>, i: int)
    requires
        0 <= i < cells.len(),
    ensures
        ({
            let once = cells.update(i, !cells[i]);
            once.update(i, !once[i])
        }) == cells,
{
    let once = cells.update(i, !cells[i]);
    assert(once.update(i, !once[i]) =~= cells);
}

/// Reversing twice restores the logical content; it restores every cell
/// when the padding was clear to begin with.
pub proof fn lemma_reverse_twice(cells: Seq<bool>, size: int)
    requires
        0 <= size <= cells.len(),
    ensures
        reversed_cells(reversed_cells(cells, size), size).take(size) == cells.take(size),
        (forall|j: int| size <= j < cells.len() ==> !cells[j]) ==> reversed_cells(
            reversed_cells(cells, size),
            size,
        ) == cells,
{
    let twice = reversed_cells(reversed_cells(cells, size), size);
    assert(twice.take(size) =~= cells.take(size));
    if forall|j: int| size <= j < cells.len() ==> !cells[j] {
        assert(twice =~= cells);
    }
}

/// Setting an empty range changes nothing.
pub proof fn lemma_set_empty_range(cells: Seq<bool>, n: int)
    ensures
        with_range_set(cells, n, n) == cells,
{
    assert(with_range_set(cells, n, n) =~= cells);
}

/// Setting the range `0..size` sets every logical bit and leaves the padding as it was.
pub proof fn lemma_set_full_range(cells: Seq<bool>, size: int)
    requires
        0 <= size <= cells.len(),
    ensures
        forall|j: int| 0 <= j < size ==> #[trigger] with_range_set(cells, 0, size)[j],
        forall|j: int|
            size <= j < cells.len() ==> #[trigger] with_range_set(cells, 0, size)[j] == cells[j],
{
}

} // verus!
