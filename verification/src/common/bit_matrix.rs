//! A two-dimensional grid of bits, each row packed into whole 32-bit words.

use crate::common::bit_array::BitArray;
use crate::common::bits::{
    highest_set_bit, lemma_bit_flip, lemma_bit_not, lemma_bit_set, lemma_bit_unset,
    lemma_bit_xor, lemma_zero_word, lowest_set_bit, word_bit,
};
use crate::exceptions::Exceptions;
use vstd::prelude::*;

verus! {

/// The mathematical content of a [`BitMatrix`]: `rows[y][x]` is the cell in
/// column `x` of row `y`.  Every row holds `stride(width)` cells; the cells
/// at `x >= width` are padding.
#[verifier::ext_equal]
pub struct Grid {
    pub width: nat,
    pub rows: Seq<Seq<bool>>,
}

/// The number of words that hold one row of `width` cells.
pub open spec fn words_per_row(width: nat) -> nat {
    ((width + 31) / 32) as nat
}

/// The number of cells stored for one row of `width` cells.
pub open spec fn stride(width: nat) -> nat {
    32 * words_per_row(width)
}

impl Grid {
    pub open spec fn height(self) -> nat {
        self.rows.len()
    }

    /// Both dimensions are positive and every row has the full stride.
    pub open spec fn wf(self) -> bool {
        &&& self.width >= 1
        &&& self.rows.len() >= 1
        &&& forall|y: int| 0 <= y < self.rows.len() ==> #[trigger] self.rows[y].len() == stride(self.width)
    }

    /// Whether the stored cell `(x, y)` is set; false outside the stored cells.
    pub open spec fn cell(self, x: int, y: int) -> bool {
        0 <= y < self.rows.len() && 0 <= x < self.rows[y].len() && self.rows[y][x]
    }

    /// No padding cell is set.
    pub open spec fn padding_clear(self) -> bool {
        forall|x: int, y: int| x >= self.width ==> !#[trigger] self.cell(x, y)
    }

    /// No stored cell is set.
    pub open spec fn is_blank(self) -> bool {
        forall|x: int, y: int| !#[trigger] self.cell(x, y)
    }

    /// The grid of `width` by `height` cells, all cleared.
    pub open spec fn blank(width: nat, height: nat) -> Grid {
        Grid { width, rows: Seq::new(height, |y: int| Seq::new(stride(width), |x: int| false)) }
    }

    /// The grid with the same shape whose stored cells are given by `f`.
    pub open spec fn remap(self, f: spec_fn(int, int) -> bool) -> Grid {
        Grid {
            width: self.width,
            rows: Seq::new(
                self.rows.len(),
                |y: int| Seq::new(stride(self.width), |x: int| f(x, y)),
            ),
        }
    }

    pub open spec fn with_cell(self, x: int, y: int, value: bool) -> Grid {
        self.remap(|i: int, j: int| if i == x && j == y { value } else { self.cell(i, j) })
    }

    /// Every stored cell inverted, padding included.
    pub open spec fn inverted(self) -> Grid {
        self.remap(|i: int, j: int| !self.cell(i, j))
    }

    /// Cell-wise exclusive or with a grid of the same shape.
    pub open spec fn xored(self, mask: Grid) -> Grid {
        self.remap(|i: int, j: int| self.cell(i, j) != mask.cell(i, j))
    }

    /// The cells of the given rectangle set.
    pub open spec fn with_region(self, left: int, top: int, width: int, height: int) -> Grid {
        self.remap(
            |i: int, j: int|
                self.cell(i, j) || (left <= i < left + width && top <= j < top + height),
        )
    }

    /// Row `y` replaced by the given cells.
    pub open spec fn with_row(self, y: int, cells: Seq<bool>) -> Grid {
        self.remap(|i: int, j: int| if j == y { cells[i] } else { self.cell(i, j) })
    }

    /// Rotated by a quarter turn counter-clockwise; the padding comes out clear.
    pub open spec fn rotated90(self) -> Grid {
        Grid {
            width: self.rows.len(),
            rows: Seq::new(
                self.width,
                |y: int|
                    Seq::new(
                        stride(self.rows.len()),
                        |x: int| x < self.rows.len() && self.cell(self.width - 1 - y, x),
                    ),
            ),
        }
    }

    /// Rotated by a half turn; the padding comes out clear.
    pub open spec fn rotated180(self) -> Grid {
        self.remap(
            |i: int, j: int|
                i < self.width && self.cell(self.width - 1 - i, self.rows.len() - 1 - j),
        )
    }

    /// Rotated counter-clockwise by `degrees`, one of 0, 90, 180 and 270.
    pub open spec fn rotated(self, degrees: int) -> Grid {
        if degrees == 90 {
            self.rotated90()
        } else if degrees == 180 {
            self.rotated180()
        } else if degrees == 270 {
            self.rotated90().rotated180()
        } else {
            self
        }
    }

    /// `(x, y)` is set and comes first among the set cells, rows from the
    /// top, each row from the left.
    pub open spec fn is_first_set(self, x: int, y: int) -> bool {
        &&& self.cell(x, y)
        &&& forall|i: int, j: int| #[trigger] self.cell(i, j) ==> j > y || (j == y && i >= x)
    }

    /// `(x, y)` is set and comes last among the set cells.
    pub open spec fn is_last_set(self, x: int, y: int) -> bool {
        &&& self.cell(x, y)
        &&& forall|i: int, j: int| #[trigger] self.cell(i, j) ==> j < y || (j == y && i <= x)
    }

    /// The rectangle is the smallest one that holds every set cell.
    pub open spec fn is_enclosing(self, left: int, top: int, width: int, height: int) -> bool {
        &&& forall|i: int, j: int| #[trigger]
            self.cell(i, j) ==> left <= i < left + width && top <= j < top + height
        &&& exists|j: int| #[trigger] self.cell(left, j)
        &&& exists|j: int| #[trigger] self.cell(left + width - 1, j)
        &&& exists|i: int| #[trigger] self.cell(i, top)
        &&& exists|i: int| #[trigger] self.cell(i, top + height - 1)
    }
}

/// Two well-formed grids of the same shape with the same cells are equal.
pub proof fn lemma_grid_ext(a: Grid, b: Grid)
    requires
        a.wf(),
        b.wf(),
        a.width == b.width,
        a.rows.len() == b.rows.len(),
        forall|x: int, y: int|
            0 <= y < a.rows.len() && 0 <= x < stride(a.width) ==> a.cell(x, y) == b.cell(x, y),
    ensures
        a == b,
{
    assert forall|y: int| 0 <= y < a.rows.len() implies a.rows[y] =~= b.rows[y] by {
        assert forall|x: int| 0 <= x < a.rows[y].len() implies a.rows[y][x] == b.rows[y][x] by {
            assert(a.cell(x, y) == b.cell(x, y));
        }
    }
    assert(a.rows =~= b.rows);
    assert(a =~= b);
}

/// A word index computed from a row and a word within the row stays in the buffer.
pub proof fn lemma_word_index(y: int, q: int, row_words: int, height: int)
    requires
        0 <= y < height,
        0 <= q < row_words,
    ensures
        0 <= y * row_words,
        0 <= y * row_words + q < row_words * height,
        (y * row_words + q) / row_words == y,
        (y * row_words + q) % row_words == q,
{
    assert(0 <= y * row_words && 0 <= y * row_words + q < row_words * height) by (nonlinear_arith)
        requires
            0 <= y < height,
            0 <= q < row_words,
    ;
    vstd::arithmetic::div_mod::lemma_fundamental_div_mod_converse(y * row_words + q, row_words, y, q);
}

/// The first `upto` cells of row `y` as text.
pub open spec fn rendered_row(g: Grid, y: int, upto: int, set: Seq<char>, unset: Seq<char>) -> Seq<
    char,
>
    decreases upto,
{
    if upto <= 0 {
        Seq::empty()
    } else {
        rendered_row(g, y, upto - 1, set, unset) + if g.cell(upto - 1, y) {
            set
        } else {
            unset
        }
    }
}

/// The first `rows` rows as text, each row closed by `separator`.
pub open spec fn rendered(g: Grid, rows: int, set: Seq<char>, unset: Seq<char>, separator: Seq<
    char,
>) -> Seq<char>
    decreases rows,
{
    if rows <= 0 {
        Seq::empty()
    } else {
        rendered(g, rows - 1, set, unset, separator) + rendered_row(
            g,
            rows - 1,
            g.width as int,
            set,
            unset,
        ) + separator
    }
}

pub open spec fn is_line_break(c: char) -> bool {
    c == '\n' || c == '\r'
}

/// A nonempty `token` stands in `text` at `pos`.
pub open spec fn has_token_at(text: Seq<char>, pos: int, token: Seq<char>) -> bool {
    token.len() > 0 && 0 <= pos && pos + token.len() <= text.len() && text.subrange(
        pos,
        pos + token.len(),
    ) == token
}

/// What has been read of a textual matrix: the cells so far, where the
/// current row starts among them, the length of the closed rows and their
/// number.
pub struct RowScan {
    pub cells: Seq<bool>,
    pub row_start: int,
    pub row_len: Option<nat>,
    pub rows: nat,
}

impl RowScan {
    pub open spec fn start() -> RowScan {
        RowScan { cells: Seq::empty(), row_start: 0, row_len: None, rows: 0 }
    }

    pub open spec fn push(self, cell: bool) -> RowScan {
        RowScan { cells: self.cells.push(cell), ..self }
    }

    /// Closes the current row if it holds a cell; fails if its length
    /// differs from that of the rows before.
    pub open spec fn close_row(self) -> Option<RowScan> {
        let n = self.cells.len() - self.row_start;
        if n <= 0 {
            Some(self)
        } else if self.row_len is Some && self.row_len->Some_0 != n {
            None
        } else {
            Some(
                RowScan {
                    cells: self.cells,
                    row_start: self.cells.len() as int,
                    row_len: Some(n as nat),
                    rows: self.rows + 1,
                },
            )
        }
    }
}

pub open spec fn scan_len(row_length: Option<usize>) -> Option<nat> {
    match row_length {
        None => None,
        Some(l) => Some(l as nat),
    }
}

/// Reads `text` from `pos` on.  At each position a line break closes the
/// row; else a set token is tried, then an unset token; anything else fails.
pub open spec fn scan_from(
    text: Seq<char>,
    set: Seq<char>,
    unset: Seq<char>,
    pos: int,
    st: RowScan,
) -> Option<RowScan>
    decreases text.len() - pos,
{
    if pos < 0 || pos >= text.len() {
        st.close_row()
    } else if is_line_break(text[pos]) {
        match st.close_row() {
            None => None,
            Some(next) => scan_from(text, set, unset, pos + 1, next),
        }
    } else if has_token_at(text, pos, set) {
        scan_from(text, set, unset, pos + set.len(), st.push(true))
    } else if has_token_at(text, pos, unset) {
        scan_from(text, set, unset, pos + unset.len(), st.push(false))
    } else {
        None
    }
}

/// The matrix that a text describes, if it describes one that can be held.
pub open spec fn parsed_grid(text: Seq<char>, set: Seq<char>, unset: Seq<char>) -> Option<Grid> {
    match scan_from(text, set, unset, 0, RowScan::start()) {
        None => None,
        Some(st) => match st.row_len {
            None => None,
            Some(l) => if l > u32::MAX || st.rows > u32::MAX || words_per_row(l) * st.rows
                > usize::MAX {
                None
            } else {
                Some(
                    Grid {
                        width: l,
                        rows: Seq::new(
                            st.rows,
                            |y: int| Seq::new(stride(l), |x: int| x < l && st.cells[y * l + x]),
                        ),
                    },
                )
            },
        },
    }
}

/// Whether the nonempty `token` stands in `text` at `pos`.
fn token_at(text: &str, pos: usize, token: &str, text_len: usize, token_len: usize) -> (r: bool)
    requires
        text_len == text@.len(),
        token_len == token@.len(),
        pos <= text_len,
    ensures
        r == has_token_at(text@, pos as int, token@),
{
    if token_len == 0 || token_len > text_len - pos {
        return false;
    }
    let mut k: usize = 0;
    while k < token_len
        invariant
            k <= token_len,
            text_len == text@.len(),
            token_len == token@.len(),
            pos + token_len <= text_len,
            text@.subrange(pos as int, pos + k) == token@.take(k as int),
        decreases token_len - k,
    {
        if text.get_char(pos + k) != token.get_char(k) {
            proof {
                let sub = text@.subrange(pos as int, pos + token_len);
                assert(sub[k as int] != token@[k as int]);
            }
            return false;
        }
        k += 1;
        assert(text@.subrange(pos as int, pos + k) =~= token@.take(k as int));
    }
    assert(token@.take(token_len as int) =~= token@);
    true
}

/// Represents a 2D matrix of bits.  `x` is the column position and `y` the
/// row position; the origin is at the top-left.
///
/// Each row begins with a new word, so that a row can be copied out into a
/// [`BitArray`] word by word.  Within a word the least significant bits
/// hold the lower `x` values.
#[derive(Debug, Hash)]
pub struct BitMatrix {
    width: u32,
    height: u32,
    row_size: usize,
    bits: Vec<u32>,
}

impl View for BitMatrix {
    type V = Grid;

    open spec fn view(&self) -> Grid {
        Grid {
            width: self.width(),
            rows: Seq::new(
                self.height(),
                |y: int| Seq::new(stride(self.width()), |x: int| self.stored(x, y)),
            ),
        }
    }
}

impl PartialEq for BitMatrix {
    /// Matrices are equal if they have the same dimensions and the same
    /// words, padding included.
    fn eq(&self, other: &Self) -> (r: bool) {
        if self.width != other.width || self.height != other.height || self.row_size
            != other.row_size || self.bits.len() != other.bits.len() {
            return false;
        }
        let mut i: usize = 0;
        while i < self.bits.len()
            invariant
                i <= self.bits.len(),
                self.bits.len() == other.bits.len(),
                self.width == other.width,
                self.height == other.height,
                self.row_size == other.row_size,
                self.bits@.take(i as int) == other.bits@.take(i as int),
            decreases self.bits.len() - i,
        {
            if self.bits[i] != other.bits[i] {
                return false;
            }
            i += 1;
            assert(self.bits@.take(i as int) =~= self.bits@.take(i - 1).push(self.bits@[i - 1]));
            assert(other.bits@.take(i as int) =~= other.bits@.take(i - 1).push(other.bits@[i - 1]));
        }
        assert(self.bits@.take(self.bits@.len() as int) =~= self.bits@);
        assert(other.bits@.take(other.bits@.len() as int) =~= other.bits@);
        true
    }
}

impl Eq for BitMatrix {

}

impl vstd::std_specs::cmp::PartialEqSpecImpl for BitMatrix {
    open spec fn obeys_eq_spec() -> bool {
        true
    }

    open spec fn eq_spec(&self, other: &Self) -> bool {
        &&& self.width() == other.width()
        &&& self.height() == other.height()
        &&& self.row_words() == other.row_words()
        &&& self.words() == other.words()
    }
}

impl Clone for BitMatrix {
    fn clone(&self) -> (r: Self)
        ensures
            r.width() == self.width(),
            r.height() == self.height(),
            r.row_words() == self.row_words(),
            r.words() == self.words(),
            r@ == self@,
            self.wf() ==> r.wf(),
    {
        let mut bits: Vec<u32> = Vec::new();
        let mut i: usize = 0;
        while i < self.bits.len()
            invariant
                i <= self.bits.len(),
                bits@ == self.bits@.take(i as int),
            decreases self.bits.len() - i,
        {
            bits.push(self.bits[i]);
            i += 1;
            assert(bits@ =~= self.bits@.take(i as int));
        }
        assert(bits@ =~= self.bits@);
        let r = self.with_all_data(self.width, self.height, self.row_size, bits);
        assert(r@ =~~= self@);
        r
    }
}

impl BitMatrix {
    pub closed spec fn width(&self) -> nat {
        self.width as nat
    }

    pub closed spec fn height(&self) -> nat {
        self.height as nat
    }

    /// The number of words per row.
    pub closed spec fn row_words(&self) -> nat {
        self.row_size as nat
    }

    /// The words of all rows, row by row.
    pub closed spec fn words(&self) -> Seq<u32> {
        self.bits@
    }

    /// The dimensions are positive and the buffer holds exactly the rows.
    pub open spec fn wf(&self) -> bool {
        &&& self.width() >= 1
        &&& self.height() >= 1
        &&& self.row_words() == words_per_row(self.width())
        &&& self.words().len() == self.row_words() * self.height()
    }

    /// The value stored for column `x` of row `y`, for `x` below the stride.
    pub open spec fn stored(&self, x: int, y: int) -> bool {
        word_bit(self.words()[y * self.row_words() + x / 32], x % 32)
    }

    /// The cells of the view are the stored cells.
    pub proof fn lemma_cells(&self)
        requires
            self.wf(),
        ensures
            self@.wf(),
            self@.width == self.width(),
            self@.rows.len() == self.height(),
            forall|x: int, y: int|
                !(0 <= y < self.height() && 0 <= x < stride(self.width())) ==> !#[trigger] self@.cell(
                    x,
                    y,
                ),
    {
    }

    proof fn lemma_view(&self)
        requires
            self.wf(),
        ensures
            self@.wf(),
            self@.width == self.width(),
            self@.rows.len() == self.height(),
            forall|x: int, y: int|
                0 <= y < self.height() && 0 <= x < stride(self.width()) ==> #[trigger] self@.cell(
                    x,
                    y,
                ) == self.stored(x, y),
            forall|x: int, y: int|
                !(0 <= y < self.height() && 0 <= x < stride(self.width())) ==> !#[trigger] self@.cell(
                    x,
                    y,
                ),
    {
    }

    /// Index of the word that holds column `x` of row `y`.
    fn word_index(&self, x: u32, y: u32) -> (r: usize)
        requires
            self.wf(),
            x < stride(self.width()),
            y < self.height(),
        ensures
            r == y * self.row_words() + x / 32,
            r < self.words().len(),
    {
        let total = self.bits.len();
        proof {
            lemma_word_index(y as int, x as int / 32, self.row_size as int, self.height as int);
            assert(y * self.row_size + x / 32 < total);
        }
        y as usize * self.row_size + (x / 32) as usize
    }

    /// Creates an empty square matrix.
    pub fn with_single_dimension(dimension: u32) -> (r: Self)
        requires
            dimension >= 1,
            words_per_row(dimension as nat) * dimension <= usize::MAX,
        ensures
            r.wf(),
            r@ == Grid::blank(dimension as nat, dimension as nat),
    {
        match Self::new(dimension, dimension) {
            Ok(m) => m,
            Err(_) => {
                proof {
                    assert(false);
                }
                BitMatrix { width: 1, height: 1, row_size: 1, bits: vec![0u32; 1] }
            },
        }
    }

    /// Creates an empty matrix.  Dimensions below 1, and dimensions whose
    /// buffer cannot be addressed, are refused.
    pub fn new(width: u32, height: u32) -> (r: Result<Self, Exceptions>)
        ensures
            r is Err <==> (width < 1 || height < 1 || words_per_row(width as nat) * height
                > usize::MAX),
            r is Err ==> r->Err_0 == Exceptions::IllegalArgumentException,
            r matches Ok(m) ==> m.wf() && m.width() == width && m.height() == height && m@
                == Grid::blank(width as nat, height as nat) && m@.is_blank(),
    {
        if width < 1 || height < 1 {
            return Err(Exceptions::IllegalArgumentException);
        }
        let row_size: u64 = (width as u64 + 31) / 32;
        assert(row_size * (height as u64) <= 0x800_0000 * 0xFFFF_FFFF) by (nonlinear_arith)
            requires
                row_size <= 0x800_0000,
                height <= 0xFFFF_FFFF,
        ;
        let total: u64 = row_size * (height as u64);
        if total > usize::MAX as u64 {
            return Err(Exceptions::IllegalArgumentException);
        }
        let m = BitMatrix {
            width,
            height,
            row_size: row_size as usize,
            bits: vec![0u32; total as usize],
        };
        proof {
            lemma_zero_word(0u32);
            m.lemma_view();
            assert forall|x: int, y: int| 0 <= y < height && 0 <= x < stride(width as nat) implies
                !m.stored(x, y) by {
                lemma_word_index(y, x / 32, row_size as int, height as int);
            }
            assert(m@ =~~= Grid::blank(width as nat, height as nat));
        }
        Ok(m)
    }

    fn with_all_data(&self, width: u32, height: u32, row_size: usize, bits: Vec<u32>) -> (r: Self)
        ensures
            r.width() == width,
            r.height() == height,
            r.row_words() == row_size,
            r.words() == bits@,
    {
        Self { width, height, row_size, bits }
    }

    /// Gets the requested bit, where true means black.
    pub fn get(&self, x: u32, y: u32) -> (r: bool)
        requires
            self.wf(),
            x < self.width(),
            y < self.height(),
        ensures
            r == self@.cell(x as int, y as int),
    {
        proof {
            self.lemma_view();
        }
        let offset = self.word_index(x, y);
        (self.bits[offset] >> (x % 32)) & 1u32 == 1u32
    }

    /// Replaces one word and states what that does to the stored cells.
    fn put_word(&mut self, offset: usize, w: u32)
        requires
            old(self).wf(),
            offset < old(self).words().len(),
        ensures
            final(self).wf(),
            final(self).width() == old(self).width(),
            final(self).height() == old(self).height(),
            final(self).words() == old(self).words().update(offset as int, w),
            forall|x: int, y: int|
                0 <= y < old(self).height() && 0 <= x < stride(old(self).width())
                    ==> #[trigger] final(self).stored(x, y) == if y * old(self).row_words() + x / 32
                    == offset {
                    word_bit(w, x % 32)
                } else {
                    old(self).stored(x, y)
                },
    {
        self.bits.set(offset, w);
        proof {
            assert forall|x: int, y: int|
                0 <= y < old(self).height() && 0 <= x < stride(
                    old(self).width(),
                ) implies #[trigger] self.stored(x, y) == if y * old(self).row_words() + x / 32
                == offset {
                word_bit(w, x % 32)
            } else {
                old(self).stored(x, y)
            } by {
                lemma_word_index(y, x / 32, self.row_size as int, self.height as int);
            }
        }
    }

    /// Sets the given bit to true.
    pub fn set(&mut self, x: u32, y: u32)
        requires
            old(self).wf(),
            x < old(self).width(),
            y < old(self).height(),
        ensures
            final(self).wf(),
            final(self).width() == old(self).width(),
            final(self).height() == old(self).height(),
            final(self)@ == old(self)@.with_cell(x as int, y as int, true),
    {
        let offset = self.word_index(x, y);
        let w = self.bits[offset];
        let k = x % 32;
        let nw = w | (1u32 << k);
        self.put_word(offset, nw);
        proof {
            old(self).lemma_view();
            self.lemma_view();
            let want = old(self)@.with_cell(x as int, y as int, true);
            assert forall|i: int, j: int|
                0 <= j < self.height() && 0 <= i < stride(self.width()) implies self@.cell(i, j)
                == want.cell(i, j) by {
                lemma_word_index(j, i / 32, self.row_size as int, self.height as int);
                lemma_word_index(y as int, x as int / 32, self.row_size as int, self.height as int);
                lemma_bit_set(w, k, (i % 32) as u32);
            }
            lemma_grid_ext(self@, want);
        }
    }

    /// Sets the given bit to false.
    pub fn unset(&mut self, x: u32, y: u32)
        requires
            old(self).wf(),
            x < old(self).width(),
            y < old(self).height(),
        ensures
            final(self).wf(),
            final(self).width() == old(self).width(),
            final(self).height() == old(self).height(),
            final(self)@ == old(self)@.with_cell(x as int, y as int, false),
    {
        let offset = self.word_index(x, y);
        let w = self.bits[offset];
        let k = x % 32;
        let nw = w & !(1u32 << k);
        self.put_word(offset, nw);
        proof {
            old(self).lemma_view();
            self.lemma_view();
            let want = old(self)@.with_cell(x as int, y as int, false);
            assert forall|i: int, j: int|
                0 <= j < self.height() && 0 <= i < stride(self.width()) implies self@.cell(i, j)
                == want.cell(i, j) by {
                lemma_word_index(j, i / 32, self.row_size as int, self.height as int);
                lemma_word_index(y as int, x as int / 32, self.row_size as int, self.height as int);
                lemma_bit_unset(w, k, (i % 32) as u32);
            }
            lemma_grid_ext(self@, want);
        }
    }

    /// Flips the given bit.
    pub fn flip_coords(&mut self, x: u32, y: u32)
        requires
            old(self).wf(),
            x < old(self).width(),
            y < old(self).height(),
        ensures
            final(self).wf(),
            final(self).width() == old(self).width(),
            final(self).height() == old(self).height(),
            final(self)@ == old(self)@.with_cell(
                x as int,
                y as int,
                !old(self)@.cell(x as int, y as int),
            ),
    {
        let offset = self.word_index(x, y);
        let w = self.bits[offset];
        let k = x % 32;
        let nw = w ^ (1u32 << k);
        self.put_word(offset, nw);
        proof {
            old(self).lemma_view();
            self.lemma_view();
            let want = old(self)@.with_cell(
                x as int,
                y as int,
                !old(self)@.cell(x as int, y as int),
            );
            assert forall|i: int, j: int|
                0 <= j < self.height() && 0 <= i < stride(self.width()) implies self@.cell(i, j)
                == want.cell(i, j) by {
                lemma_word_index(j, i / 32, self.row_size as int, self.height as int);
                lemma_word_index(y as int, x as int / 32, self.row_size as int, self.height as int);
                lemma_bit_flip(w, k, (i % 32) as u32);
            }
            lemma_grid_ext(self@, want);
        }
    }

    /// Flips every stored bit, the padding of each row included.
    pub fn flip_self(&mut self)
        requires
            old(self).wf(),
        ensures
            final(self).wf(),
            final(self).width() == old(self).width(),
            final(self).height() == old(self).height(),
            final(self)@ == old(self)@.inverted(),
    {
        let max = self.bits.len();
        let mut i: usize = 0;
        while i < max
            invariant
                i <= max,
                max == self.bits.len(),
                self.wf(),
                self.width == old(self).width,
                self.height == old(self).height,
                self.row_size == old(self).row_size,
                forall|m: int|
                    0 <= m < max ==> #[trigger] self.bits[m] == if m < i {
                        !old(self).bits[m]
                    } else {
                        old(self).bits[m]
                    },
            decreases max - i,
        {
            let w = !self.bits[i];
            self.bits.set(i, w);
            i += 1;
        }
        proof {
            old(self).lemma_view();
            self.lemma_view();
            let want = old(self)@.inverted();
            assert forall|x: int, y: int|
                0 <= y < self.height() && 0 <= x < stride(self.width()) implies self@.cell(x, y)
                == want.cell(x, y) by {
                lemma_word_index(y, x / 32, self.row_size as int, self.height as int);
                lemma_bit_not(old(self).bits[y * self.row_size + x / 32], (x % 32) as u32);
            }
            lemma_grid_ext(self@, want);
        }
    }

    /// Exclusive-or: flips every bit whose mask bit is set.
    pub fn xor(&mut self, mask: &BitMatrix) -> (r: Result<(), Exceptions>)
        requires
            old(self).wf(),
            mask.wf(),
        ensures
            r is Err <==> (old(self).width() != mask.width() || old(self).height()
                != mask.height()),
            r is Err ==> r == Err::<(), Exceptions>(Exceptions::IllegalArgumentException)
                && *final(self) == *old(self),
            r is Ok ==> final(self).wf() && final(self).width() == old(self).width()
                && final(self).height() == old(self).height() && final(self)@ == old(self)@.xored(
                mask@,
            ),
    {
        if self.width != mask.width || self.height != mask.height || self.row_size
            != mask.row_size {
            return Err(Exceptions::IllegalArgumentException);
        }
        let max = self.bits.len();
        let mut i: usize = 0;
        while i < max
            invariant
                i <= max,
                max == self.bits.len(),
                max == mask.bits.len(),
                self.wf(),
                self.width == old(self).width,
                self.height == old(self).height,
                self.row_size == old(self).row_size,
                forall|m: int|
                    0 <= m < max ==> #[trigger] self.bits[m] == if m < i {
                        old(self).bits[m] ^ mask.bits[m]
                    } else {
                        old(self).bits[m]
                    },
            decreases max - i,
        {
            let w = self.bits[i] ^ mask.bits[i];
            self.bits.set(i, w);
            i += 1;
        }
        proof {
            old(self).lemma_view();
            self.lemma_view();
            mask.lemma_view();
            let want = old(self)@.xored(mask@);
            assert forall|x: int, y: int|
                0 <= y < self.height() && 0 <= x < stride(self.width()) implies self@.cell(x, y)
                == want.cell(x, y) by {
                lemma_word_index(y, x / 32, self.row_size as int, self.height as int);
                let m = y * self.row_size + x / 32;
                lemma_bit_xor(old(self).bits[m], mask.bits[m], (x % 32) as u32);
            }
            lemma_grid_ext(self@, want);
        }
        Ok(())
    }

    /// Clears all bits.
    pub fn clear(&mut self)
        requires
            old(self).wf(),
        ensures
            final(self).wf(),
            final(self).width() == old(self).width(),
            final(self).height() == old(self).height(),
            final(self)@ == Grid::blank(old(self).width(), old(self).height()),
    {
        let max = self.bits.len();
        let mut i: usize = 0;
        while i < max
            invariant
                i <= max,
                max == self.bits.len(),
                self.wf(),
                self.width == old(self).width,
                self.height == old(self).height,
                self.row_size == old(self).row_size,
                forall|m: int| 0 <= m < i ==> #[trigger] self.bits[m] == 0u32,
            decreases max - i,
        {
            self.bits.set(i, 0);
            i += 1;
        }
        proof {
            lemma_zero_word(0u32);
            self.lemma_view();
            let want = Grid::blank(old(self).width(), old(self).height());
            assert forall|x: int, y: int|
                0 <= y < self.height() && 0 <= x < stride(self.width()) implies self@.cell(x, y)
                == want.cell(x, y) by {
                lemma_word_index(y, x / 32, self.row_size as int, self.height as int);
            }
            lemma_grid_ext(self@, want);
        }
    }

    /// Sets a rectangular region of the matrix to true.
    pub fn setRegion(&mut self, left: u32, top: u32, width: u32, height: u32) -> (r: Result<
        (),
        Exceptions,
    >)
        requires
            old(self).wf(),
        ensures
            r is Err <==> (height < 1 || width < 1 || top + height > old(self).height() || left
                + width > old(self).width()),
            r is Err ==> r == Err::<(), Exceptions>(Exceptions::IllegalArgumentException)
                && *final(self) == *old(self),
            r is Ok ==> final(self).wf() && final(self).width() == old(self).width()
                && final(self).height() == old(self).height() && final(self)@ == old(
                self,
            )@.with_region(
                left as int,
                top as int,
                width as int,
                height as int,
            ),
    {
        if height < 1 || width < 1 {
            return Err(Exceptions::IllegalArgumentException);
        }
        if top as u64 + height as u64 > self.height as u64 || left as u64 + width as u64
            > self.width as u64 {
            return Err(Exceptions::IllegalArgumentException);
        }
        let right = left + width;
        let bottom = top + height;
        let ghost start = self@;
        proof {
            self.lemma_view();
        }
        let mut y = top;
        while y < bottom
            invariant
                top <= y <= bottom,
                bottom <= self.height,
                left < right <= self.width,
                self.wf(),
                start.wf(),
                self.width == old(self).width,
                self.height == old(self).height,
                start == old(self)@,
                forall|i: int, j: int|
                    0 <= j < self.height() && 0 <= i < stride(self.width()) ==> #[trigger] self@.cell(
                        i,
                        j,
                    ) == (start.cell(i, j) || (left <= i < right && top <= j < y)),
            decreases bottom - y,
        {
            let mut x = left;
            while x < right
                invariant
                    left <= x <= right,
                    top <= y < bottom,
                    bottom <= self.height,
                    left < right <= self.width,
                    self.wf(),
                    start.wf(),
                    self.width == old(self).width,
                    self.height == old(self).height,
                    forall|i: int, j: int|
                        0 <= j < self.height() && 0 <= i < stride(self.width())
                            ==> #[trigger] self@.cell(i, j) == (start.cell(i, j) || (left <= i < right
                            && top <= j < y) || (j == y && left <= i < x)),
                decreases right - x,
            {
                let ghost prev = self@;
                self.set(x, y);
                proof {
                    self.lemma_view();
                    assert forall|i: int, j: int|
                        0 <= j < self.height() && 0 <= i < stride(
                            self.width(),
                        ) implies #[trigger] self@.cell(i, j) == (start.cell(i, j) || (left <= i
                        < right && top <= j < y) || (j == y && left <= i < x + 1)) by {
                        assert(self@.cell(i, j) == if i == x && j == y {
                            true
                        } else {
                            prev.cell(i, j)
                        });
                    }
                }
                x += 1;
            }
            y += 1;
        }
        proof {
            self.lemma_view();
            let want = old(self)@.with_region(left as int, top as int, width as int, height as int);
            assert forall|i: int, j: int|
                0 <= j < self.height() && 0 <= i < stride(self.width()) implies self@.cell(i, j)
                == want.cell(i, j) by {
            }
            lemma_grid_ext(self@, want);
        }
        Ok(())
    }

    /// Retrieves one row of the matrix as a [`BitArray`].  The buffer of
    /// `row` is taken over if it is long enough, else a new one of `width`
    /// bits is made.  Cells beyond the stored row come out clear.
    pub fn getRow(&self, y: u32, row: &BitArray) -> (r: BitArray)
        requires
            self.wf(),
            y < self.height(),
            row.wf(),
        ensures
            r.wf(),
            r.size() == if row.size() < self.width() {
                self.width()
            } else {
                row.size()
            },
            r.words().len() == if row.size() < self.width() {
                self.row_words()
            } else {
                row.words().len()
            },
            r.words().len() >= self.row_words(),
            forall|x: int| 0 <= x < r.capacity() ==> #[trigger] r.cells()[x] == self@.cell(x, y as int),
    {
        let mut rw: BitArray = if row.getSize() < self.width as usize {
            BitArray::with_size(self.width as usize)
        } else {
            let mut z = row.clone();
            z.clear();
            z
        };
        let total = self.bits.len();
        proof {
            lemma_zero_word(0u32);
            self.lemma_view();
            lemma_word_index(y as int, 0, self.row_size as int, self.height as int);
            assert(y * self.row_size + 0 < total);
        }
        let offset = y as usize * self.row_size;
        let ghost blank = rw.words();
        let mut x: usize = 0;
        while x < self.row_size
            invariant
                x <= self.row_size,
                self.wf(),
                y < self.height,
                offset == y * self.row_size,
                rw.words().len() == blank.len(),
                rw.words().len() >= self.row_size,
                rw.size() == if row.size() < self.width() {
                    self.width()
                } else {
                    row.size()
                },
                forall|m: int|
                    0 <= m < blank.len() ==> #[trigger] rw.words()[m] == if m < x {
                        self.bits[offset + m]
                    } else {
                        0u32
                    },
            decreases self.row_size - x,
        {
            proof {
                lemma_word_index(y as int, x as int, self.row_size as int, self.height as int);
                assert(offset + x < self.bits.len());
            }
            rw.setBulk(x * 32, self.bits[offset + x]);
            x += 1;
        }
        proof {
            assert forall|i: int| 0 <= i < rw.capacity() implies #[trigger] rw.cells()[i]
                == self@.cell(i, y as int) by {
                let m = i / 32;
                assert(i == 32 * m + i % 32);
                if m < self.row_size {
                    assert(self@.cell(i, y as int) == self.stored(i, y as int));
                }
            }
        }
        rw
    }

    /// Overwrites row `y` with the first words of `row`.
    pub fn setRow(&mut self, y: u32, row: &BitArray)
        requires
            old(self).wf(),
            y < old(self).height(),
            row.words().len() >= old(self).row_words(),
        ensures
            final(self).wf(),
            final(self).width() == old(self).width(),
            final(self).height() == old(self).height(),
            final(self)@ == old(self)@.with_row(y as int, row.cells()),
    {
        let total = self.bits.len();
        proof {
            lemma_word_index(y as int, 0, self.row_size as int, self.height as int);
            assert(y * self.row_size + 0 < total);
        }
        let offset = y as usize * self.row_size;
        let source = row.getBitArray();
        let mut x: usize = 0;
        while x < self.row_size
            invariant
                x <= self.row_size,
                self.wf(),
                y < self.height,
                offset == y * self.row_size,
                source@ == row.words(),
                source@.len() >= self.row_size,
                self.width == old(self).width,
                self.height == old(self).height,
                self.row_size == old(self).row_size,
                self.bits.len() == old(self).bits.len(),
                forall|m: int|
                    0 <= m < self.bits.len() ==> #[trigger] self.bits[m] == if offset <= m < offset
                        + x {
                        source[m - offset]
                    } else {
                        old(self).bits[m]
                    },
            decreases self.row_size - x,
        {
            proof {
                lemma_word_index(y as int, x as int, self.row_size as int, self.height as int);
                assert(offset + x < self.bits.len());
            }
            self.bits.set(offset + x, source[x]);
            x += 1;
        }
        proof {
            old(self).lemma_view();
            self.lemma_view();
            let want = old(self)@.with_row(y as int, row.cells());
            assert forall|i: int, j: int|
                0 <= j < self.height() && 0 <= i < stride(self.width()) implies self@.cell(i, j)
                == want.cell(i, j) by {
                lemma_word_index(j, i / 32, self.row_size as int, self.height as int);
                lemma_word_index(y as int, i / 32, self.row_size as int, self.height as int);
                let m = j * self.row_size + i / 32;
                if j == y {
                    assert(row.cells()[i] == word_bit(row.words()[i / 32], i % 32));
                    assert(self.bits[m] == source[m - offset]);
                } else {
                    if offset <= m < offset + self.row_size {
                        lemma_word_index(
                            y as int,
                            m - offset,
                            self.row_size as int,
                            self.height as int,
                        );
                    }
                    assert(self.bits[m] == old(self).bits[m]);
                }
            }
            lemma_grid_ext(self@, want);
        }
    }

    /// Rotates the matrix counter-clockwise by `degrees`, a multiple of 90.
    pub fn rotate(&mut self, degrees: u32) -> (r: Result<(), Exceptions>)
        requires
            old(self).wf(),
            degrees % 360 == 90 || degrees % 360 == 270 ==> words_per_row(old(self).height())
                * old(self).width() <= usize::MAX,
        ensures
            r is Err <==> !(degrees % 360 == 0 || degrees % 360 == 90 || degrees % 360 == 180
                || degrees % 360 == 270),
            r is Err ==> r == Err::<(), Exceptions>(Exceptions::IllegalArgumentException)
                && *final(self) == *old(self),
            r is Ok ==> final(self).wf() && final(self)@ == old(self)@.rotated(
                degrees as int % 360,
            ),
    {
        let turn = degrees % 360;
        if turn == 0 {
            Ok(())
        } else if turn == 90 {
            self.rotate90();
            Ok(())
        } else if turn == 180 {
            self.rotate180();
            Ok(())
        } else if turn == 270 {
            self.rotate90();
            self.rotate180();
            Ok(())
        } else {
            Err(Exceptions::IllegalArgumentException)
        }
    }

    /// Rotates the matrix by 180 degrees.
    pub fn rotate180(&mut self)
        requires
            old(self).wf(),
        ensures
            final(self).wf(),
            final(self).width() == old(self).width(),
            final(self).height() == old(self).height(),
            final(self)@ == old(self)@.rotated180(),
    {
        let width = self.width;
        let height = self.height;
        let mut top_row = BitArray::with_size(width as usize);
        let mut bottom_row = BitArray::with_size(width as usize);
        let max_height = height / 2 + height % 2;
        let ghost start = self@;
        proof {
            self.lemma_view();
        }
        let mut i: u32 = 0;
        while i < max_height
            invariant
                i <= max_height,
                max_height == height / 2 + height % 2,
                self.wf(),
                start.wf(),
                start == old(self)@,
                width == self.width,
                height == self.height,
                self.width == old(self).width,
                self.height == old(self).height,
                top_row.wf(),
                bottom_row.wf(),
                top_row.size() == width,
                bottom_row.size() == width,
                forall|x: int, j: int|
                    0 <= j < height && 0 <= x < stride(width as nat) ==> #[trigger] self@.cell(x, j)
                        == if j < i || j > height - 1 - i {
                        x < width && start.cell(width - 1 - x, height - 1 - j)
                    } else {
                        start.cell(x, j)
                    },
            decreases max_height - i,
        {
            let ghost g0 = self@;
            let bottom_index = height - 1 - i;
            top_row = self.getRow(i, &top_row);
            bottom_row = self.getRow(bottom_index, &bottom_row);
            let ghost t0 = top_row.cells();
            let ghost b0 = bottom_row.cells();
            top_row.reverse();
            bottom_row.reverse();
            self.setRow(i, &bottom_row);
            let ghost g1 = self@;
            self.setRow(bottom_index, &top_row);
            proof {
                self.lemma_view();
                assert forall|x: int, j: int|
                    0 <= j < height && 0 <= x < stride(width as nat) implies #[trigger] self@.cell(
                    x,
                    j,
                ) == if j < i + 1 || j > height - 1 - (i + 1) {
                    x < width && start.cell(width - 1 - x, height - 1 - j)
                } else {
                    start.cell(x, j)
                } by {
                    assert(g1.cell(x, j) == if j == i {
                        bottom_row.cells()[x]
                    } else {
                        g0.cell(x, j)
                    });
                    assert(self@.cell(x, j) == if j == bottom_index {
                        top_row.cells()[x]
                    } else {
                        g1.cell(x, j)
                    });
                    assert(top_row.cells()[x] == (x < width && t0[width - 1 - x]));
                    assert(bottom_row.cells()[x] == (x < width && b0[width - 1 - x]));
                    if x < width {
                        assert(t0[width - 1 - x] == g0.cell(width - 1 - x, i as int));
                        assert(b0[width - 1 - x] == g0.cell(width - 1 - x, bottom_index as int));
                    }
                }
            }
            i += 1;
        }
        proof {
            self.lemma_view();
            let want = old(self)@.rotated180();
            assert forall|x: int, j: int|
                0 <= j < self.height() && 0 <= x < stride(self.width()) implies self@.cell(x, j)
                == want.cell(x, j) by {
            }
            lemma_grid_ext(self@, want);
        }
    }

    /// Rotates the matrix by 90 degrees counter-clockwise.
    pub fn rotate90(&mut self)
        requires
            old(self).wf(),
            words_per_row(old(self).height()) * old(self).width() <= usize::MAX,
        ensures
            final(self).wf(),
            final(self).width() == old(self).height(),
            final(self).height() == old(self).width(),
            final(self)@ == old(self)@.rotated90(),
    {
        let new_width = self.height;
        let new_height = self.width;
        let mut turned = match BitMatrix::new(new_width, new_height) {
            Ok(m) => m,
            Err(_) => {
                return ;
            },
        };
        let ghost start = self@;
        proof {
            self.lemma_view();
            turned.lemma_view();
        }
        let mut y: u32 = 0;
        while y < self.height
            invariant
                y <= self.height,
                self.wf(),
                turned.wf(),
                start == self@,
                *self == *old(self),
                new_width == self.height,
                new_height == self.width,
                turned.width() == new_width,
                turned.height() == new_height,
                forall|nx: int, ny: int|
                    0 <= ny < new_height && 0 <= nx < stride(new_width as nat)
                        ==> #[trigger] turned@.cell(nx, ny) == (nx < y && start.cell(
                        new_height - 1 - ny,
                        nx,
                    )),
            decreases self.height - y,
        {
            let mut x: u32 = 0;
            while x < self.width
                invariant
                    x <= self.width,
                    y < self.height,
                    self.wf(),
                    turned.wf(),
                    start == self@,
                    *self == *old(self),
                    new_width == self.height,
                    new_height == self.width,
                    turned.width() == new_width,
                    turned.height() == new_height,
                    forall|nx: int, ny: int|
                        0 <= ny < new_height && 0 <= nx < stride(new_width as nat)
                            ==> #[trigger] turned@.cell(nx, ny) == ((nx < y || (nx == y && new_height
                            - 1 - ny < x)) && start.cell(new_height - 1 - ny, nx)),
                decreases self.width - x,
            {
                let ghost prev = turned@;
                if self.get(x, y) {
                    turned.set(y, new_height - 1 - x);
                }
                proof {
                    turned.lemma_view();
                    assert forall|nx: int, ny: int|
                        0 <= ny < new_height && 0 <= nx < stride(
                            new_width as nat,
                        ) implies #[trigger] turned@.cell(nx, ny) == ((nx < y || (nx == y
                        && new_height - 1 - ny < x + 1)) && start.cell(new_height - 1 - ny, nx)) by {
                        assert(turned@.cell(nx, ny) == if nx == y && ny == new_height - 1 - x
                            && start.cell(x as int, y as int) {
                            true
                        } else {
                            prev.cell(nx, ny)
                        });
                    }
                }
                x += 1;
            }
            y += 1;
        }
        proof {
            turned.lemma_view();
            let want = old(self)@.rotated90();
            assert(want.wf());
            assert forall|nx: int, ny: int|
                0 <= ny < turned.height() && 0 <= nx < stride(turned.width()) implies turned@.cell(
                nx,
                ny,
            ) == want.cell(nx, ny) by {
                assert(turned@.cell(nx, ny) == (nx < self.height && start.cell(
                    new_height - 1 - ny,
                    nx,
                )));
                if nx >= self.height {
                    assert(!start.cell(new_height - 1 - ny, nx));
                }
            }
            lemma_grid_ext(turned@, want);
        }
        *self = turned;
    }

    /// The smallest rectangle `[left, top, width, height]` that holds every
    /// set stored cell, or `None` if no cell is set.
    pub fn getEnclosingRectangle(&self) -> (r: Option<Vec<u32>>)
        requires
            self.wf(),
            stride(self.width()) <= u32::MAX,
        ensures
            r is None <==> self@.is_blank(),
            r matches Some(v) ==> v@.len() == 4 && self@.is_enclosing(
                v[0] as int,
                v[1] as int,
                v[2] as int,
                v[3] as int,
            ),
    {
        let mut found = false;
        let mut left: u32 = 0;
        let mut top: u32 = 0;
        let mut right: u32 = 0;
        let mut bottom: u32 = 0;
        let ghost mut at_left: int = 0;
        let ghost mut at_right: int = 0;
        let ghost mut at_top: int = 0;
        let ghost mut at_bottom: int = 0;
        let ghost g = self@;
        proof {
            self.lemma_view();
        }
        let mut y: u32 = 0;
        while y < self.height
            invariant
                y <= self.height,
                self.wf(),
                g == self@,
                stride(self.width()) <= u32::MAX,
                forall|i: int, j: int| #[trigger]
                    g.cell(i, j) && j < y ==> found && left <= i <= right && top <= j <= bottom,
                found ==> g.cell(left as int, at_left) && g.cell(right as int, at_right) && g.cell(
                    at_top,
                    top as int,
                ) && g.cell(at_bottom, bottom as int),
                found ==> left <= right && top <= bottom && bottom < y,
            decreases self.height - y,
        {
            let mut x32: usize = 0;
            while x32 < self.row_size
                invariant
                    x32 <= self.row_size,
                    y < self.height,
                    self.wf(),
                    g == self@,
                    stride(self.width()) <= u32::MAX,
                    forall|i: int, j: int| #[trigger]
                        g.cell(i, j) && (j < y || (j == y && i / 32 < x32)) ==> found && left <= i
                            <= right && top <= j <= bottom,
                    found ==> g.cell(left as int, at_left) && g.cell(right as int, at_right)
                        && g.cell(at_top, top as int) && g.cell(at_bottom, bottom as int),
                    found ==> left <= right && top <= bottom && bottom <= y,
                decreases self.row_size - x32,
            {
                proof {
                    lemma_word_index(y as int, x32 as int, self.row_size as int, self.height as int);
                    assert(y * self.row_size + x32 < self.bits.len());
                }
                let the_bits = self.bits[y as usize * self.row_size + x32];
                let ghost found0 = found;
                let ghost left0 = left;
                let ghost right0 = right;
                let ghost top0 = top;
                let ghost bottom0 = bottom;
                proof {
                    lemma_zero_word(the_bits);
                }
                if the_bits != 0 {
                    let lo_bit = lowest_set_bit(the_bits);
                    let hi_bit = highest_set_bit(the_bits);
                    let lo: u32 = (x32 * 32) as u32 + lo_bit;
                    let hi: u32 = (x32 * 32) as u32 + hi_bit;
                    proof {
                        assert(lo as int / 32 == x32 && lo as int % 32 == lo_bit);
                        assert(hi as int / 32 == x32 && hi as int % 32 == hi_bit);
                        assert(g.cell(lo as int, y as int));
                        assert(g.cell(hi as int, y as int));
                    }
                    if !found {
                        found = true;
                        left = lo;
                        right = hi;
                        top = y;
                        bottom = y;
                        proof {
                            at_left = y as int;
                            at_right = y as int;
                            at_top = lo as int;
                            at_bottom = lo as int;
                        }
                    } else {
                        if lo < left {
                            left = lo;
                            proof {
                                at_left = y as int;
                            }
                        }
                        if hi > right {
                            right = hi;
                            proof {
                                at_right = y as int;
                            }
                        }
                        if y > bottom {
                            bottom = y;
                            proof {
                                at_bottom = lo as int;
                            }
                        }
                    }
                }
                proof {
                    assert forall|i: int, j: int| #[trigger]
                        g.cell(i, j) && (j < y || (j == y && i / 32 < x32 + 1)) implies found
                        && left <= i <= right && top <= j <= bottom by {
                        if j < y || (j == y && i / 32 < x32) {
                            assert(found0 && left0 <= i <= right0 && top0 <= j <= bottom0);
                        } else {
                            assert(i == 32 * x32 + i % 32);
                            assert(g.cell(i, y as int) == self.stored(i, y as int));
                            assert(word_bit(the_bits, i % 32));
                        }
                    }
                }
                x32 += 1;
            }
            proof {
                assert forall|i: int, j: int| #[trigger] g.cell(i, j) && j < y + 1 implies found
                    && left <= i <= right && top <= j <= bottom by {
                    if j == y {
                        assert(i / 32 < self.row_size);
                    }
                }
            }
            y += 1;
        }
        if !found {
            return None;
        }
        let box_width: u32 = right - left + 1;
        let box_height: u32 = bottom - top + 1;
        let v = vec![left, top, box_width, box_height];
        proof {
            assert(g.cell(left as int, at_left));
            assert(g.cell(left + (right - left + 1) - 1, at_right));
            assert(g.cell(at_top, top as int));
            assert(g.cell(at_bottom, top + (bottom - top + 1) - 1));
        }
        Some(v)
    }

    /// The `[x, y]` coordinate of the first set stored cell, rows from the
    /// top and each row from the left, or `None` if no cell is set.
    pub fn getTopLeftOnBit(&self) -> (r: Option<Vec<u32>>)
        requires
            self.wf(),
        ensures
            r is None <==> self@.is_blank(),
            r matches Some(v) ==> v@.len() == 2 && self@.is_first_set(v[0] as int, v[1] as int),
    {
        let total = self.bits.len();
        let ghost g = self@;
        proof {
            self.lemma_view();
        }
        let mut off: usize = 0;
        while off < total && self.bits[off] == 0
            invariant
                off <= total,
                total == self.bits.len(),
                forall|m: int| 0 <= m < off ==> #[trigger] self.bits[m] == 0u32,
            decreases total - off,
        {
            off += 1;
        }
        proof {
            lemma_zero_word(0u32);
            assert forall|i: int, j: int| #[trigger] g.cell(i, j) implies j * self.row_size + i / 32
                >= off by {
                lemma_word_index(j, i / 32, self.row_size as int, self.height as int);
            }
        }
        if off == total {
            proof {
                assert forall|i: int, j: int| !#[trigger] g.cell(i, j) by {
                    if g.cell(i, j) {
                        lemma_word_index(j, i / 32, self.row_size as int, self.height as int);
                    }
                }
            }
            return None;
        }
        let y = off / self.row_size;
        let q = off % self.row_size;
        let the_bits = self.bits[off];
        let bit = lowest_set_bit(the_bits);
        proof {
            vstd::arithmetic::div_mod::lemma_fundamental_div_mod(off as int, self.row_size as int);
            assert(y < self.height) by (nonlinear_arith)
                requires
                    off == self.row_size * y + q,
                    q >= 0,
                    off < self.row_size * self.height,
                    self.row_size > 0,
            ;
            lemma_word_index(y as int, q as int, self.row_size as int, self.height as int);
            assert(off == y * self.row_size + q) by (nonlinear_arith)
                requires
                    off == self.row_size * y + q,
            ;
        }
        let x = q * 32 + bit as usize;
        proof {
            assert(x as int / 32 == q && x as int % 32 == bit);
            assert(word_bit(the_bits, bit as int));
            assert(g.cell(x as int, y as int) == self.stored(x as int, y as int));
            assert forall|i: int, j: int| #[trigger] g.cell(i, j) implies j > y || (j == y && i
                >= x) by {
                lemma_word_index(j, i / 32, self.row_size as int, self.height as int);
                let m = j * self.row_size + i / 32;
                vstd::arithmetic::div_mod::lemma_div_is_ordered(
                    off as int,
                    m,
                    self.row_size as int,
                );
                assert(i == 32 * (i / 32) + i % 32);
                if j == y {
                    if i / 32 == q {
                        assert(g.cell(i, j) == self.stored(i, j));
                        assert(word_bit(the_bits, i % 32));
                    }
                }
            }
        }
        Some(vec![x as u32, y as u32])
    }

    /// The `[x, y]` coordinate of the last set stored cell, rows from the
    /// top and each row from the left, or `None` if no cell is set.
    pub fn getBottomRightOnBit(&self) -> (r: Option<Vec<u32>>)
        requires
            self.wf(),
        ensures
            r is None <==> self@.is_blank(),
            r matches Some(v) ==> v@.len() == 2 && self@.is_last_set(v[0] as int, v[1] as int),
    {
        let total = self.bits.len();
        let ghost g = self@;
        proof {
            self.lemma_view();
        }
        let mut end: usize = total;
        while end > 0 && self.bits[end - 1] == 0
            invariant
                end <= total,
                total == self.bits.len(),
                forall|m: int| end <= m < total ==> #[trigger] self.bits[m] == 0u32,
            decreases end,
        {
            end -= 1;
        }
        proof {
            lemma_zero_word(0u32);
            assert forall|i: int, j: int| #[trigger] g.cell(i, j) implies j * self.row_size + i / 32
                < end by {
                lemma_word_index(j, i / 32, self.row_size as int, self.height as int);
            }
        }
        if end == 0 {
            proof {
                assert forall|i: int, j: int| !#[trigger] g.cell(i, j) by {
                    if g.cell(i, j) {
                        lemma_word_index(j, i / 32, self.row_size as int, self.height as int);
                    }
                }
            }
            return None;
        }
        let off = end - 1;
        let y = off / self.row_size;
        let q = off % self.row_size;
        let the_bits = self.bits[off];
        let bit = highest_set_bit(the_bits);
        proof {
            vstd::arithmetic::div_mod::lemma_fundamental_div_mod(off as int, self.row_size as int);
            assert(y < self.height) by (nonlinear_arith)
                requires
                    off == self.row_size * y + q,
                    q >= 0,
                    off < self.row_size * self.height,
                    self.row_size > 0,
            ;
            lemma_word_index(y as int, q as int, self.row_size as int, self.height as int);
            assert(off == y * self.row_size + q) by (nonlinear_arith)
                requires
                    off == self.row_size * y + q,
            ;
        }
        let x = q * 32 + bit as usize;
        proof {
            assert(x as int / 32 == q && x as int % 32 == bit);
            assert(word_bit(the_bits, bit as int));
            assert(g.cell(x as int, y as int) == self.stored(x as int, y as int));
            assert forall|i: int, j: int| #[trigger] g.cell(i, j) implies j < y || (j == y && i
                <= x) by {
                lemma_word_index(j, i / 32, self.row_size as int, self.height as int);
                let m = j * self.row_size + i / 32;
                vstd::arithmetic::div_mod::lemma_div_is_ordered(
                    m,
                    off as int,
                    self.row_size as int,
                );
                assert(i == 32 * (i / 32) + i % 32);
                if j == y {
                    if i / 32 == q {
                        assert(g.cell(i, j) == self.stored(i, j));
                        assert(word_bit(the_bits, i % 32));
                    }
                }
            }
        }
        Some(vec![x as u32, y as u32])
    }

    /// Interprets a 2D array of booleans as a matrix, where true means an
    /// "on" bit.  The first row gives the width.
    pub fn parse_bools(image: &Vec<Vec<bool>>) -> (r: Self)
        requires
            1 <= image.len() <= u32::MAX,
            1 <= image[0].len() <= u32::MAX,
            forall|y: int| 0 <= y < image.len() ==> #[trigger] image[y].len() >= image[0].len(),
            words_per_row(image[0].len() as nat) * image.len() <= usize::MAX,
        ensures
            r.wf(),
            r.width() == image[0].len(),
            r.height() == image.len(),
            forall|x: int, y: int|
                0 <= y < image.len() && 0 <= x < stride(r.width()) ==> #[trigger] r@.cell(x, y) == (x
                    < image[0].len() && image[y][x]),
    {
        let height: u32 = image.len() as u32;
        let width: u32 = image[0].len() as u32;
        let mut bits = match BitMatrix::new(width, height) {
            Ok(m) => m,
            Err(_) => {
                proof {
                    assert(false);
                }
                return BitMatrix { width: 1, height: 1, row_size: 1, bits: vec![0u32; 1] };
            },
        };
        let mut i: usize = 0;
        while i < height as usize
            invariant
                i <= height,
                height == image.len(),
                width == image[0].len(),
                bits.wf(),
                bits.width() == width,
                bits.height() == height,
                forall|y: int| 0 <= y < image.len() ==> #[trigger] image[y].len() >= image[0].len(),
                forall|x: int, y: int|
                    0 <= y < height && 0 <= x < stride(width as nat) ==> #[trigger] bits@.cell(x, y)
                        == (y < i && x < width && image[y][x]),
            decreases height - i,
        {
            let image_i = &image[i];
            let mut j: usize = 0;
            while j < width as usize
                invariant
                    j <= width,
                    i < height,
                    height == image.len(),
                    width == image[0].len(),
                    image_i == image[i as int],
                    image_i.len() >= width,
                    bits.wf(),
                    bits.width() == width,
                    bits.height() == height,
                    forall|x: int, y: int|
                        0 <= y < height && 0 <= x < stride(width as nat) ==> #[trigger] bits@.cell(
                            x,
                            y,
                        ) == ((y < i || (y == i && x < j)) && x < width && image[y][x]),
                decreases width - j,
            {
                let ghost prev = bits@;
                if image_i[j] {
                    bits.set(j as u32, i as u32);
                }
                proof {
                    assert forall|x: int, y: int|
                        0 <= y < height && 0 <= x < stride(
                            width as nat,
                        ) implies #[trigger] bits@.cell(x, y) == ((y < i || (y == i && x < j + 1))
                        && x < width && image[y][x]) by {
                        bits.lemma_view();
                        assert(bits@.cell(x, y) == if x == j && y == i && image_i[j as int] {
                            true
                        } else {
                            prev.cell(x, y)
                        });
                    }
                }
                j += 1;
            }
            i += 1;
        }
        bits
    }

    /// Reads a matrix from text: each row is a run of `set_string` and
    /// `unset_string` tokens, rows are separated by line breaks, and all
    /// rows hold the same number of tokens.
    pub fn parse_strings(string_representation: &str, set_string: &str, unset_string: &str) -> (r:
        Result<Self, Exceptions>)
        ensures
            match parsed_grid(string_representation@, set_string@, unset_string@) {
                None => r is Err && r->Err_0 == Exceptions::IllegalArgumentException,
                Some(g) => r matches Ok(m) && m.wf() && m@ == g,
            },
    {
        let text_len = string_representation.unicode_len();
        let set_len = set_string.unicode_len();
        let unset_len = unset_string.unicode_len();
        let ghost text = string_representation@;
        let mut bits: Vec<bool> = Vec::new();
        let mut row_start: usize = 0;
        let mut row_length: Option<usize> = None;
        let mut n_rows: usize = 0;
        let mut pos: usize = 0;
        let ghost whole = scan_from(text, set_string@, unset_string@, 0, RowScan::start());
        while pos < text_len
            invariant
                pos <= text_len,
                text_len == text.len(),
                text == string_representation@,
                set_len == set_string@.len(),
                unset_len == unset_string@.len(),
                n_rows <= row_start <= bits.len() <= pos,
                whole == scan_from(text, set_string@, unset_string@, 0, RowScan::start()),
                row_length matches Some(l) ==> l >= 1 && n_rows >= 1 && row_start == n_rows * l,
                row_length is None ==> n_rows == 0 && row_start == 0,
                whole == scan_from(
                    text,
                    set_string@,
                    unset_string@,
                    pos as int,
                    RowScan {
                        cells: bits@,
                        row_start: row_start as int,
                        row_len: scan_len(row_length),
                        rows: n_rows as nat,
                    },
                ),
            decreases text_len - pos,
        {
            let c = string_representation.get_char(pos);
            let ghost st = RowScan {
                cells: bits@,
                row_start: row_start as int,
                row_len: scan_len(row_length),
                rows: n_rows as nat,
            };
            if c == '\n' || c == '\r' {
                if bits.len() > row_start {
                    let n = bits.len() - row_start;
                    match row_length {
                        None => {
                            row_length = Some(n);
                            assert(n == 1 * n) by (nonlinear_arith);
                        },
                        Some(l) => {
                            if n != l {
                                return Err(Exceptions::IllegalArgumentException);
                            }
                            assert((n_rows + 1) * l == n_rows * l + l) by (nonlinear_arith);
                        },
                    }
                    row_start = bits.len();
                    n_rows += 1;
                }
                pos += 1;
            } else if token_at(string_representation, pos, set_string, text_len, set_len) {
                pos += set_len;
                bits.push(true);
            } else if token_at(string_representation, pos, unset_string, text_len, unset_len) {
                pos += unset_len;
                bits.push(false);
            } else {
                return Err(Exceptions::IllegalArgumentException);
            }
        }
        if bits.len() > row_start {
            let n = bits.len() - row_start;
            match row_length {
                None => {
                    row_length = Some(n);
                    assert(n == 1 * n) by (nonlinear_arith);
                },
                Some(l) => {
                    if n != l {
                        return Err(Exceptions::IllegalArgumentException);
                    }
                    assert((n_rows + 1) * l == n_rows * l + l) by (nonlinear_arith);
                },
            }
            row_start = bits.len();
            n_rows += 1;
        }
        let row_len = match row_length {
            None => {
                return Err(Exceptions::IllegalArgumentException);
            },
            Some(l) => l,
        };
        assert(bits.len() == n_rows * row_len);
        if row_len > u32::MAX as usize || n_rows > u32::MAX as usize {
            return Err(Exceptions::IllegalArgumentException);
        }
        let mut matrix = match BitMatrix::new(row_len as u32, n_rows as u32) {
            Ok(m) => m,
            Err(e) => {
                return Err(e);
            },
        };
        let mut i: usize = 0;
        while i < bits.len()
            invariant
                i <= bits.len(),
                row_len >= 1,
                bits.len() == n_rows * row_len,
                matrix.wf(),
                matrix.width() == row_len,
                matrix.height() == n_rows,
                forall|x: int, y: int|
                    0 <= y < n_rows && 0 <= x < stride(row_len as nat) ==> #[trigger] matrix@.cell(x, y)
                        == (x < row_len && y * row_len + x < i && bits[y * row_len + x]),
            decreases bits.len() - i,
        {
            let ghost prev = matrix@;
            let x = i % row_len;
            let y = i / row_len;
            proof {
                vstd::arithmetic::div_mod::lemma_fundamental_div_mod(i as int, row_len as int);
                assert(y < n_rows) by (nonlinear_arith)
                    requires
                        i == row_len * y + x,
                        x >= 0,
                        i < n_rows * row_len,
                        row_len > 0,
                ;
            }
            if bits[i] {
                matrix.set(x as u32, y as u32);
            }
            proof {
                matrix.lemma_view();
                assert forall|cx: int, cy: int|
                    0 <= cy < n_rows && 0 <= cx < stride(
                        row_len as nat,
                    ) implies #[trigger] matrix@.cell(cx, cy) == (cx < row_len && cy * row_len + cx < i
                    + 1 && bits[cy * row_len + cx]) by {
                    assert(matrix@.cell(cx, cy) == if cx == x && cy == y && bits[i as int] {
                        true
                    } else {
                        prev.cell(cx, cy)
                    });
                    if cx < row_len {
                        lemma_word_index(cy, cx, row_len as int, n_rows as int);
                        assert(row_len * y + x == y * row_len + x) by (nonlinear_arith);
                    }
                }
            }
            i += 1;
        }
        proof {
            matrix.lemma_view();
            let st = whole->Some_0;
            let want = parsed_grid(string_representation@, set_string@, unset_string@)->Some_0;
            assert(want.wf());
            assert forall|x: int, y: int|
                0 <= y < matrix.height() && 0 <= x < stride(matrix.width()) implies matrix@.cell(x, y)
                == want.cell(x, y) by {
                if x < row_len {
                    lemma_word_index(y, x, row_len as int, n_rows as int);
                    assert(n_rows * row_len == row_len * n_rows) by (nonlinear_arith);
                }
            }
            lemma_grid_ext(matrix@, want);
        }
        Ok(matrix)
    }

    /// The matrix as text, one line per row, each line closed by a line feed.
    pub fn toString(&self, set_string: &str, unset_string: &str) -> (r: String)
        requires
            self.wf(),
        ensures
            r@ == rendered(self@, self.height() as int, set_string@, unset_string@, seq!['\n']),
    {
        let r = self.buildToString(set_string, unset_string, "\n");
        proof {
            reveal_strlit("\n");
            assert("\n"@ =~= seq!['\n']);
        }
        r
    }

    /// The matrix as text, `X ` for a set bit and two spaces for a cleared one.
    pub fn to_string(&self) -> (r: String)
        requires
            self.wf(),
        ensures
            r@ == rendered(self@, self.height() as int, "X "@, "  "@, seq!['\n']),
    {
        self.toString("X ", "  ")
    }

    fn buildToString(&self, set_string: &str, unset_string: &str, line_separator: &str) -> (r:
        String)
        requires
            self.wf(),
        ensures
            r@ == rendered(
                self@,
                self.height() as int,
                set_string@,
                unset_string@,
                line_separator@,
            ),
    {
        let mut result = String::new();
        let mut y: u32 = 0;
        while y < self.height
            invariant
                y <= self.height,
                self.wf(),
                result@ == rendered(self@, y as int, set_string@, unset_string@, line_separator@),
            decreases self.height - y,
        {
            let ghost before = result@;
            let mut x: u32 = 0;
            while x < self.width
                invariant
                    x <= self.width,
                    y < self.height,
                    self.wf(),
                    result@ == before + rendered_row(
                        self@,
                        y as int,
                        x as int,
                        set_string@,
                        unset_string@,
                    ),
                decreases self.width - x,
            {
                if self.get(x, y) {
                    result.append(set_string);
                } else {
                    result.append(unset_string);
                }
                x += 1;
                assert(result@ =~= before + rendered_row(
                    self@,
                    y as int,
                    x as int,
                    set_string@,
                    unset_string@,
                ));
            }
            result.append(line_separator);
            y += 1;
            proof {
                self.lemma_view();
                assert(result@ =~= rendered(
                    self@,
                    y as int,
                    set_string@,
                    unset_string@,
                    line_separator@,
                ));
            }
        }
        result
    }

    /// The width of the matrix.
    pub fn getWidth(&self) -> (r: u32)
        ensures
            r == self.width(),
    {
        self.width
    }

    /// The height of the matrix.
    pub fn getHeight(&self) -> (r: u32)
        ensures
            r == self.height(),
    {
        self.height
    }

    /// The number of words per row.
    pub fn getRowSize(&self) -> (r: usize)
        ensures
            r == self.row_words(),
    {
        self.row_size
    }
}

} // verus!

verus! {

/// Four quarter turns restore a matrix whose padding is clear.
pub proof fn lemma_four_quarter_turns(g: Grid)
    requires
        g.wf(),
        g.padding_clear(),
    ensures
        g.rotated90().rotated90().rotated90().rotated90() == g,
{
    let a = g.rotated90();
    let b = a.rotated90();
    let c = b.rotated90();
    let d = c.rotated90();
    assert(a.wf() && b.wf() && c.wf() && d.wf());
    assert forall|x: int, y: int|
        0 <= y < g.rows.len() && 0 <= x < stride(g.width) implies d.cell(x, y) == g.cell(x, y) by {
        if x < g.width {
            assert(d.cell(x, y) == c.cell(c.width - 1 - y, x));
            assert(c.cell(c.width - 1 - y, x) == b.cell(b.width - 1 - x, c.width - 1 - y));
            assert(b.cell(b.width - 1 - x, c.width - 1 - y) == a.cell(
                a.width - 1 - (c.width - 1 - y),
                b.width - 1 - x,
            ));
        } else {
            assert(!g.cell(x, y));
        }
    }
    lemma_grid_ext(d, g);
}

/// A half turn is the same as two quarter turns.
pub proof fn lemma_half_turn_is_two_quarter_turns(g: Grid)
    requires
        g.wf(),
    ensures
        g.rotated180() == g.rotated90().rotated90(),
{
    let a = g.rotated90();
    let b = a.rotated90();
    let h = g.rotated180();
    assert(a.wf() && b.wf() && h.wf());
    assert forall|x: int, y: int|
        0 <= y < h.rows.len() && 0 <= x < stride(h.width) implies h.cell(x, y) == b.cell(x, y) by {
        if x < g.width {
            assert(b.cell(x, y) == a.cell(a.width - 1 - y, x));
        }
    }
    lemma_grid_ext(h, b);
}

/// Every cell of a blank grid reads as cleared.
pub proof fn lemma_blank_reads_false(width: nat, height: nat, x: int, y: int)
    ensures
        !Grid::blank(width, height).cell(x, y),
{
}

} // verus!
