//! The validated grid: construction rejects any grid with a repeated digit in
//! a row, column, or block, and every value of the type keeps that invariant.

use vstd::prelude::*;

use crate::model::{
    dup_in_block, dup_in_col, dup_in_row, full_grid, lemma_block_decompose, lemma_cell_decompose,
    lemma_no_dups_iff, no_dups, valid_grid, wf_grid,
};
use crate::number::Number;
use crate::square::{Block, Col, Row, Square};

verus! {

/// The cell value an optional digit stands for: 0 for `None`.
pub open spec fn digit_of(o: Option<Number>) -> u8 {
    match o {
        Option::None => 0u8,
        Option::Some(n) => n.spec_get(),
    }
}

/// The cell values a sequence of optional digits stands for.
pub open spec fn digits_of(s: Seq<Option<Number>>) -> Seq<u8> {
    s.map(|k: int, o: Option<Number>| digit_of(o))
}

/// Why a grid was rejected at construction.
#[derive(Clone, Copy, Debug, PartialEq, Eq, Structural)]
pub enum BoardError {
    /// The named column holds a digit twice.
    IllegalCol(u8),
    /// The named row holds a digit twice.
    IllegalRow(u8),
    /// The named block holds a digit twice.
    IllegalBlock(u8),
}

/// The 81-cell grid. Every `Board` that satisfies `inv` has pairwise-distinct
/// filled digits in each row, column, and block.
#[derive(Debug)]
pub struct Board {
    cells: Vec<u8>,
}

impl Clone for Board {
    /// An independent copy of the grid.
    fn clone(&self) -> (r: Self)
        ensures
            r@ == self@,
    {
        let r = Board { cells: self.cells.clone() };
        proof {
            assert(r@ =~= self@);
        }
        r
    }
}

impl View for Board {
    type V = Seq<u8>;

    closed spec fn view(&self) -> Seq<u8> {
        self.cells@
    }
}

/// Checks one group of nine cells for a repeated digit, using a seen-digit
/// bitmask as the construction-time counterpart of the engine's masks.
fn group_ok(cells: &Vec<u8>, sqs: &Vec<Square>) -> (r: bool)
    requires
        cells@.len() == 81,
        forall|k: int| 0 <= k < cells@.len() ==> cells@[k] <= 9,
        sqs@.len() == 9,
    ensures
        r ==> (forall|k1: int, k2: int|
            0 <= k1 < k2 < 9 && cells@[sqs@[k1].spec_get() as int] != 0
                ==> cells@[sqs@[k1].spec_get() as int] != cells@[sqs@[k2].spec_get() as int]),
        !r ==> (exists|k1: int, k2: int|
            0 <= k1 < k2 < 9 && cells@[#[trigger] sqs@[k1].spec_get() as int] != 0
                && cells@[sqs@[k1].spec_get() as int] == cells@[#[trigger] sqs@[k2].spec_get() as int]),
{
    let mut seen: u32 = 0;
    let mut k: usize = 0;
    proof {
        assert forall|e: u32| 1 <= e <= 9 implies (((0u32 >> e) & 1) != 1) by {
            assert((0u32 >> e) & 1 != 1) by (bit_vector);
        }
    }
    while k < 9
        invariant
            k <= 9,
            cells@.len() == 81,
            forall|t: int| 0 <= t < cells@.len() ==> cells@[t] <= 9,
            sqs@.len() == 9,
            forall|e: u32|
                1 <= e <= 9 ==> ((((#[trigger] (seen >> e)) & 1) == 1) <==> exists|t: int|
                    0 <= t < k && cells@[#[trigger] sqs@[t].spec_get() as int] == e as int),
            forall|k1: int, k2: int|
                0 <= k1 < k2 < k && cells@[sqs@[k1].spec_get() as int] != 0
                    ==> cells@[sqs@[k1].spec_get() as int] != cells@[sqs@[k2].spec_get() as int],
        decreases 9 - k,
    {
        let sq = sqs[k];
        let idx: usize = sq.get() as usize;
        let v: u8 = cells[idx];
        if v != 0 {
            if (seen >> (v as u32)) & 1 == 1 {
                proof {
                    assert(((seen >> (v as u32)) & 1) == 1);
                    let t = choose|t: int|
                        0 <= t < k && cells@[#[trigger] sqs@[t].spec_get() as int] == v as int;
                    assert(cells@[sqs@[t].spec_get() as int] != 0);
                    assert(cells@[sqs@[t].spec_get() as int] == cells@[sqs@[k as int].spec_get() as int]);
                }
                return false;
            }
            let ghost seen0 = seen;
            seen = seen | (1u32 << (v as u32));
            proof {
                assert forall|e: u32|
                    1 <= e <= 9 implies ((((#[trigger] (seen >> e)) & 1) == 1) <==> ((((seen0
                >> e) & 1) == 1) || e == v as u32)) by {
                    let vv = v as u32;
                    assert((((seen0 | (1u32 << vv)) >> e) & 1 == 1) <==> ((((seen0 >> e) & 1)
                        == 1) || e == vv)) by (bit_vector)
                        requires
                            1 <= e <= 9 && vv < 10,
                    ;
                }
                assert forall|e: u32|
                    1 <= e <= 9 implies ((((#[trigger] (seen >> e)) & 1) == 1) <==> exists|t: int|
                    0 <= t < k + 1 && cells@[#[trigger] sqs@[t].spec_get() as int] == e as int) by {
                    if e == v as u32 {
                        assert(cells@[sqs@[k as int].spec_get() as int] == e as int);
                    } else {
                        if exists|t: int|
                            0 <= t < k + 1 && cells@[#[trigger] sqs@[t].spec_get() as int]
                                == e as int {
                            let t = choose|t: int|
                                0 <= t < k + 1 && cells@[#[trigger] sqs@[t].spec_get() as int]
                                    == e as int;
                            assert(t < k);
                        }
                    }
                }
            }
        } else {
            proof {
                assert forall|e: u32|
                    1 <= e <= 9 implies ((((#[trigger] (seen >> e)) & 1) == 1) <==> exists|t: int|
                    0 <= t < k + 1 && cells@[#[trigger] sqs@[t].spec_get() as int] == e as int) by {
                    if exists|t: int|
                        0 <= t < k + 1 && cells@[#[trigger] sqs@[t].spec_get() as int]
                            == e as int {
                        let t = choose|t: int|
                            0 <= t < k + 1 && cells@[#[trigger] sqs@[t].spec_get() as int]
                                == e as int;
                        assert(t < k);
                    }
                }
            }
        }
        k = k + 1;
    }
    true
}

impl Board {
    /// The grid invariant: 81 cells, each 0..=9, no repeated digit in any
    /// row, column, or block.
    pub open spec fn inv(self) -> bool {
        valid_grid(self@)
    }

    /// The empty grid.
    pub fn empty() -> (r: Self)
        ensures
            r.inv(),
            r@ == crate::model::empty_grid(),
    {
        let mut cells: Vec<u8> = Vec::new();
        let mut i: usize = 0;
        while i < 81
            invariant
                i <= 81,
                cells@.len() == i,
                forall|k: int| 0 <= k < i ==> cells@[k] == 0,
            decreases 81 - i,
        {
            cells.push(0u8);
            i = i + 1;
        }
        let r = Board { cells };
        proof {
            assert(r@ =~= crate::model::empty_grid());
        }
        r
    }

    /// Builds a grid from 81 optional digits, rejecting any grid that repeats
    /// a digit within a column, row, or block. Columns are checked first, then
    /// rows, then blocks, each in ascending order, and the first offending
    /// group is reported.
    pub fn new(inner: Vec<Option<Number>>) -> (r: Result<Board, BoardError>)
        requires
            inner@.len() == 81,
        ensures
            r is Ok <==> valid_grid(digits_of(inner@)),
            r matches Ok(b) ==> b.inv() && b@ == digits_of(inner@),
            r matches Err(e) ==> !valid_grid(digits_of(inner@)) && (match e {
                BoardError::IllegalCol(c) => c < 9 && dup_in_col(digits_of(inner@), c as int) && (
                forall|g: int| 0 <= g < c ==> !dup_in_col(digits_of(inner@), g)),
                BoardError::IllegalRow(w) => w < 9 && dup_in_row(digits_of(inner@), w as int) && (
                forall|g: int| 0 <= g < 9 ==> !dup_in_col(digits_of(inner@), g)) && (forall|g: int|
                    0 <= g < w ==> !dup_in_row(digits_of(inner@), g)),
                BoardError::IllegalBlock(l) => l < 9 && dup_in_block(digits_of(inner@), l as int)
                    && (forall|g: int| 0 <= g < 9 ==> !dup_in_col(digits_of(inner@), g)) && (
                forall|g: int| 0 <= g < 9 ==> !dup_in_row(digits_of(inner@), g)) && (forall|g: int|
                    0 <= g < l ==> !dup_in_block(digits_of(inner@), g)),
            }),
    {
        let ghost d = digits_of(inner@);
        let mut cells: Vec<u8> = Vec::new();
        let mut i: usize = 0;
        while i < 81
            invariant
                inner@.len() == 81,
                i <= 81,
                cells@.len() == i,
                forall|k: int| 0 <= k < i ==> cells@[k] == digits_of(inner@)[k],
                forall|k: int| 0 <= k < i ==> cells@[k] <= 9,
            decreases 81 - i,
        {
            let o: Option<Number> = inner[i];
            match o {
                Option::Some(n) => {
                    cells.push(n.get());
                },
                Option::None => {
                    cells.push(0u8);
                },
            }
            i = i + 1;
        }
        proof {
            assert(cells@ =~= d);
            assert(wf_grid(d));
        }

        let mut c: u8 = 0;
        while c < 9
            invariant
                d == digits_of(inner@),
                cells@ == d,
                wf_grid(d),
                c <= 9,
                forall|g: int| 0 <= g < c ==> !dup_in_col(d, g),
            decreases 9 - c,
        {
            let sqs = Square::col_all(Col::new_unchecked(c));
            let ok = group_ok(&cells, &sqs);
            if !ok {
                proof {
                    let (k1, k2) = choose|k1: int, k2: int|
                        0 <= k1 < k2 < 9 && cells@[#[trigger] sqs@[k1].spec_get() as int] != 0
                            && cells@[sqs@[k1].spec_get() as int] == cells@[
                        #[trigger] sqs@[k2].spec_get() as int];
                    let i = sqs@[k1].spec_get() as int;
                    let j = sqs@[k2].spec_get() as int;
                    assert(i != j);
                    assert(dup_in_col(d, c as int));
                    lemma_dup_invalid(d);
                }
                return Err(BoardError::IllegalCol(c));
            }
            proof {
                lemma_group_col(d, c as int, sqs@);
            }
            c = c + 1;
        }

        let mut w: u8 = 0;
        while w < 9
            invariant
                d == digits_of(inner@),
                cells@ == d,
                wf_grid(d),
                w <= 9,
                forall|g: int| 0 <= g < 9 ==> !dup_in_col(d, g),
                forall|g: int| 0 <= g < w ==> !dup_in_row(d, g),
            decreases 9 - w,
        {
            let sqs = Square::row_all(Row::new_unchecked(w));
            let ok = group_ok(&cells, &sqs);
            if !ok {
                proof {
                    let (k1, k2) = choose|k1: int, k2: int|
                        0 <= k1 < k2 < 9 && cells@[#[trigger] sqs@[k1].spec_get() as int] != 0
                            && cells@[sqs@[k1].spec_get() as int] == cells@[
                        #[trigger] sqs@[k2].spec_get() as int];
                    let i = sqs@[k1].spec_get() as int;
                    let j = sqs@[k2].spec_get() as int;
                    assert(i != j);
                    assert(dup_in_row(d, w as int));
                    lemma_dup_invalid(d);
                }
                return Err(BoardError::IllegalRow(w));
            }
            proof {
                lemma_group_row(d, w as int, sqs@);
            }
            w = w + 1;
        }

        let mut l: u8 = 0;
        while l < 9
            invariant
                d == digits_of(inner@),
                cells@ == d,
                wf_grid(d),
                l <= 9,
                forall|g: int| 0 <= g < 9 ==> !dup_in_col(d, g),
                forall|g: int| 0 <= g < 9 ==> !dup_in_row(d, g),
                forall|g: int| 0 <= g < l ==> !dup_in_block(d, g),
            decreases 9 - l,
        {
            let sqs = Square::block_all(Block::new_unchecked(l));
            let ok = group_ok(&cells, &sqs);
            if !ok {
                proof {
                    let (k1, k2) = choose|k1: int, k2: int|
                        0 <= k1 < k2 < 9 && cells@[#[trigger] sqs@[k1].spec_get() as int] != 0
                            && cells@[sqs@[k1].spec_get() as int] == cells@[
                        #[trigger] sqs@[k2].spec_get() as int];
                    let i = sqs@[k1].spec_get() as int;
                    let j = sqs@[k2].spec_get() as int;
                    crate::model::lemma_block_cell(l as int, k1);
                    crate::model::lemma_block_cell(l as int, k2);
                    vstd::arithmetic::div_mod::lemma_fundamental_div_mod(k1, 3);
                    vstd::arithmetic::div_mod::lemma_fundamental_div_mod(k2, 3);
                    assert(i != j);
                    assert(dup_in_block(d, l as int));
                    lemma_dup_invalid(d);
                }
                return Err(BoardError::IllegalBlock(l));
            }
            proof {
                lemma_group_block(d, l as int, sqs@);
            }
            l = l + 1;
        }

        proof {
            lemma_no_dups_iff(d);
        }
        Ok(Board { cells })
    }

    /// Whether every cell is filled.
    pub fn is_solved(&self) -> (r: bool)
        requires
            self.inv(),
        ensures
            r == full_grid(self@),
    {
        let mut i: usize = 0;
        while i < 81
            invariant
                self.inv(),
                i <= 81,
                forall|k: int| 0 <= k < i ==> self@[k] != 0,
            decreases 81 - i,
        {
            if self.cells[i] == 0 {
                return false;
            }
            i = i + 1;
        }
        true
    }

    /// The digit at cell `sq`, or `None` if the cell is vacant.
    pub fn get(&self, sq: Square) -> (r: Option<Number>)
        requires
            self.inv(),
        ensures
            r is Some <==> self@[sq.spec_get() as int] != 0,
            r matches Some(n) ==> n.spec_get() == self@[sq.spec_get() as int],
    {
        let idx: usize = sq.get() as usize;
        let v: u8 = self.cells[idx];
        if v == 0 {
            None
        } else {
            Some(Number::new_unchecked(v))
        }
    }

    /// The raw value at cell `sq`: 0 for vacant, otherwise the digit.
    pub fn get_raw(&self, sq: Square) -> (r: u8)
        requires
            self.inv(),
        ensures
            r == self@[sq.spec_get() as int],
    {
        let idx: usize = sq.get() as usize;
        self.cells[idx]
    }

    /// Writes raw value `v` at cell `sq`; the caller shows the grid stays
    /// valid.
    pub(crate) fn set_cell(&mut self, sq: Square, v: u8)
        requires
            old(self).inv(),
            v <= 9,
            valid_grid(old(self)@.update(sq.spec_get() as int, v)),
        ensures
            final(self).inv(),
            final(self)@ == old(self)@.update(sq.spec_get() as int, v),
    {
        let idx: usize = sq.get() as usize;
        self.cells[idx] = v;
    }
}

/// If one column's nine cells repeat no digit, that column has no duplicate.
proof fn lemma_group_col(b: Seq<u8>, c: int, sqs: Seq<Square>)
    requires
        b.len() == 81,
        0 <= c < 9,
        sqs.len() == 9,
        forall|k: int|
            0 <= k < 9 ==> (#[trigger] sqs[k].spec_get()) == c + 9 * k && crate::model::col_of(
                sqs[k].spec_get() as int,
            ) == c && crate::model::row_of(sqs[k].spec_get() as int) == k,
        forall|k1: int, k2: int|
            0 <= k1 < k2 < 9 && b[sqs[k1].spec_get() as int] != 0 ==> b[sqs[k1].spec_get() as int]
                != b[sqs[k2].spec_get() as int],
    ensures
        !dup_in_col(b, c),
{
    if dup_in_col(b, c) {
        let (i, j) = choose|i: int, j: int|
            0 <= i < 81 && 0 <= j < 81 && i != j && crate::model::col_of(i) == c
                && crate::model::col_of(j) == c && b[i] != 0 && b[i] == b[j];
        lemma_cell_decompose(i);
        lemma_cell_decompose(j);
        let ki = crate::model::row_of(i);
        let kj = crate::model::row_of(j);
        assert(sqs[ki].spec_get() as int == i);
        assert(sqs[kj].spec_get() as int == j);
        assert(ki != kj);
    }
}

/// If one row's nine cells repeat no digit, that row has no duplicate.
proof fn lemma_group_row(b: Seq<u8>, r: int, sqs: Seq<Square>)
    requires
        b.len() == 81,
        0 <= r < 9,
        sqs.len() == 9,
        forall|k: int|
            0 <= k < 9 ==> (#[trigger] sqs[k].spec_get()) == 9 * r + k && crate::model::row_of(
                sqs[k].spec_get() as int,
            ) == r && crate::model::col_of(sqs[k].spec_get() as int) == k,
        forall|k1: int, k2: int|
            0 <= k1 < k2 < 9 && b[sqs[k1].spec_get() as int] != 0 ==> b[sqs[k1].spec_get() as int]
                != b[sqs[k2].spec_get() as int],
    ensures
        !dup_in_row(b, r),
{
    if dup_in_row(b, r) {
        let (i, j) = choose|i: int, j: int|
            0 <= i < 81 && 0 <= j < 81 && i != j && crate::model::row_of(i) == r
                && crate::model::row_of(j) == r && b[i] != 0 && b[i] == b[j];
        lemma_cell_decompose(i);
        lemma_cell_decompose(j);
        let ki = crate::model::col_of(i);
        let kj = crate::model::col_of(j);
        assert(sqs[ki].spec_get() as int == i);
        assert(sqs[kj].spec_get() as int == j);
        assert(ki != kj);
    }
}

/// If one block's nine cells repeat no digit, that block has no duplicate.
proof fn lemma_group_block(b: Seq<u8>, bl: int, sqs: Seq<Square>)
    requires
        b.len() == 81,
        0 <= bl < 9,
        sqs.len() == 9,
        forall|k: int|
            0 <= k < 9 ==> (#[trigger] sqs[k].spec_get()) as int == crate::model::block_cell(bl, k)
                && crate::model::block_of(sqs[k].spec_get() as int) == bl,
        forall|k1: int, k2: int|
            0 <= k1 < k2 < 9 && b[sqs[k1].spec_get() as int] != 0 ==> b[sqs[k1].spec_get() as int]
                != b[sqs[k2].spec_get() as int],
    ensures
        !dup_in_block(b, bl),
{
    if dup_in_block(b, bl) {
        let (i, j) = choose|i: int, j: int|
            0 <= i < 81 && 0 <= j < 81 && i != j && crate::model::block_of(i) == bl
                && crate::model::block_of(j) == bl && b[i] != 0 && b[i] == b[j];
        lemma_block_decompose(i);
        lemma_block_decompose(j);
        let ki = crate::model::block_slot(i);
        let kj = crate::model::block_slot(j);
        assert(sqs[ki].spec_get() as int == i);
        assert(sqs[kj].spec_get() as int == j);
        assert(ki != kj);
    }
}

/// Any group duplicate makes the whole grid invalid.
proof fn lemma_dup_invalid(b: Seq<u8>)
    requires
        b.len() == 81,
        (exists|g: int| 0 <= g < 9 && dup_in_col(b, g)) || (exists|g: int|
            0 <= g < 9 && dup_in_row(b, g)) || (exists|g: int| 0 <= g < 9 && dup_in_block(b, g)),
    ensures
        !valid_grid(b),
{
    lemma_no_dups_iff(b);
}


/// A byte parsing ignores: ASCII space, tab, newline, form feed, or carriage
/// return.
pub open spec fn is_ws(c: u8) -> bool {
    c == 32 || c == 9 || c == 10 || c == 12 || c == 13
}

/// An ASCII decimal digit byte.
pub open spec fn is_digit_byte(c: u8) -> bool {
    48 <= c <= 57
}

/// The input with every whitespace byte dropped, order kept.
pub open spec fn non_ws(s: Seq<u8>) -> Seq<u8>
    decreases s.len(),
{
    if s.len() == 0 {
        Seq::empty()
    } else if is_ws(s.last()) {
        non_ws(s.drop_last())
    } else {
        non_ws(s.drop_last()).push(s.last())
    }
}

/// The cell values the 81 non-whitespace digit bytes of the input stand for.
pub open spec fn parsed_digits(s: Seq<u8>) -> Seq<u8> {
    non_ws(s).map(|k: int, c: u8| (c - 48) as u8)
}

/// The text form of a grid: nine lines, nine space-separated digit characters
/// each (0 for a vacant cell), each line ended by a newline.
pub open spec fn render(b: Seq<u8>) -> Seq<u8> {
    Seq::new(
        162,
        |p: int|
            {
                let t = p % 18;
                if t == 17 {
                    10u8
                } else if t % 2 == 1 {
                    32u8
                } else {
                    (b[9 * (p / 18) + t / 2] + 48) as u8
                }
            },
    )
}

/// How many digit characters the first `p` bytes of a rendered grid hold.
pub open spec fn rendered_digits(p: int) -> int {
    9 * (p / 18) + (p % 18 + 1) / 2
}

/// The digit characters of a grid's text form, in cell order.
pub open spec fn encoded(b: Seq<u8>) -> Seq<u8> {
    Seq::new(81, |k: int| (b[k] + 48) as u8)
}

/// Why parsing a grid's text failed.
#[derive(Clone, Copy, Debug, PartialEq, Eq, Structural)]
pub enum ParseError {
    /// More than 81 digit characters.
    TooManyNumbers,
    /// Fewer than 81 digit characters.
    TooFewNumbers,
    /// A byte that is neither a digit nor whitespace; carries it.
    InvalidChar(u8),
    /// The 81 digits break the distinctness invariant.
    IllegalGrid(BoardError),
}

/// The whitespace-dropped prefix of an input is a prefix of its
/// whitespace-dropped whole.
proof fn lemma_non_ws_prefix(s: Seq<u8>, p: int)
    requires
        0 <= p <= s.len(),
    ensures
        non_ws(s.take(p)).len() <= non_ws(s).len(),
        forall|k: int|
            0 <= k < non_ws(s.take(p)).len() ==> non_ws(s)[k] == non_ws(s.take(p))[k],
    decreases s.len() - p,
{
    if p == s.len() {
        assert(s.take(p) =~= s);
    } else {
        assert(s.take(p + 1).drop_last() =~= s.take(p));
        assert(s.take(p + 1).last() == s[p]);
        lemma_non_ws_prefix(s, p + 1);
    }
}

impl Board {
    /// Parses a grid from text: exactly 81 decimal digit characters, 0 for a
    /// vacant cell, with all whitespace ignored, validated like `new`.
    pub fn parse(input: &[u8]) -> (r: Result<Board, ParseError>)
        ensures
            r is Ok <==> (non_ws(input@).len() == 81 && (forall|k: int|
                0 <= k < 81 ==> is_digit_byte(#[trigger] non_ws(input@)[k])) && valid_grid(
                parsed_digits(input@),
            )),
            r matches Ok(b) ==> b.inv() && b@ == parsed_digits(input@),
            r == Err::<Board, ParseError>(ParseError::TooManyNumbers) <==> (non_ws(input@).len()
                > 81 && (forall|k: int|
                0 <= k < 81 ==> is_digit_byte(#[trigger] non_ws(input@)[k]))),
            r == Err::<Board, ParseError>(ParseError::TooFewNumbers) <==> (non_ws(input@).len()
                < 81 && (forall|k: int|
                0 <= k < non_ws(input@).len() ==> is_digit_byte(#[trigger] non_ws(input@)[k]))),
            r matches Err(e) ==> (match e {
                ParseError::InvalidChar(c) => exists|k0: int|
                    0 <= k0 < 81 && k0 < non_ws(input@).len() && non_ws(input@)[k0] == c
                        && !is_digit_byte(c) && (forall|k: int|
                        0 <= k < k0 ==> is_digit_byte(#[trigger] non_ws(input@)[k])),
                ParseError::IllegalGrid(_) => non_ws(input@).len() == 81 && (forall|k: int|
                    0 <= k < 81 ==> is_digit_byte(#[trigger] non_ws(input@)[k])) && !valid_grid(
                    parsed_digits(input@),
                ),
                _ => true,
            }),
    {
        let ghost s = input@;
        let mut inner: Vec<Option<Number>> = Vec::new();
        let mut fill: usize = 0;
        while fill < 81
            invariant
                fill <= 81,
                inner@.len() == fill,
                forall|k: int| 0 <= k < fill ==> inner@[k] is None,
            decreases 81 - fill,
        {
            inner.push(None);
            fill = fill + 1;
        }
        let mut cnt: usize = 0;
        let mut p: usize = 0;
        while p < input.len()
            invariant
                s == input@,
                p <= s.len(),
                cnt <= 81,
                inner@.len() == 81,
                non_ws(s.take(p as int)).len() == cnt,
                forall|k: int|
                    0 <= k < cnt ==> is_digit_byte(#[trigger] non_ws(s.take(p as int))[k]),
                forall|k: int|
                    0 <= k < cnt ==> digits_of(inner@)[k] == non_ws(s.take(p as int))[k] - 48,
                forall|k: int| cnt <= k < 81 ==> inner@[k] is None,
            decreases s.len() - p,
        {
            let c = input[p];
            let ghost fp = non_ws(s.take(p as int));
            proof {
                assert(s.take(p + 1).drop_last() =~= s.take(p as int));
                assert(s.take(p + 1).last() == s[p as int]);
            }
            if !(c == 32 || c == 9 || c == 10 || c == 12 || c == 13) {
                proof {
                    assert(non_ws(s.take(p + 1)) == fp.push(c));
                    lemma_non_ws_prefix(s, p + 1);
                }
                if cnt >= 81 {
                    proof {
                        assert(non_ws(s).len() >= 82);
                        assert forall|k: int| 0 <= k < 81 implies is_digit_byte(
                            #[trigger] non_ws(s)[k],
                        ) by {
                            assert(non_ws(s)[k] == non_ws(s.take(p + 1))[k]);
                            assert(non_ws(s.take(p + 1))[k] == fp[k]);
                        }
                    }
                    return Err(ParseError::TooManyNumbers);
                }
                if c >= 48 && c <= 57 {
                    let digit: u8 = c - 48;
                    let ghost inner0 = inner@;
                    inner[cnt] = Number::new(digit);
                    cnt = cnt + 1;
                    proof {
                        assert forall|k: int|
                            0 <= k < cnt implies digits_of(inner@)[k] == non_ws(
                            s.take(p + 1),
                        )[k] - 48 by {
                            assert(digits_of(inner@)[k] == digit_of(inner@[k]));
                            if k < cnt - 1 {
                                assert(inner@[k] == inner0[k]);
                                assert(digit_of(inner@[k]) == digits_of(inner0)[k]);
                                assert(non_ws(s.take(p + 1))[k] == fp[k]);
                            } else {
                                assert(non_ws(s.take(p + 1))[k] == c);
                                if 1 <= digit {
                                    assert(inner@[k] matches Some(n) && n.spec_get() == digit);
                                } else {
                                    assert(inner@[k] is None);
                                }
                            }
                        }
                    }
                } else {
                    proof {
                        let k0 = cnt as int;
                        assert(non_ws(s.take(p + 1))[k0] == c);
                        assert(non_ws(s)[k0] == c);
                        assert forall|k: int| 0 <= k < k0 implies is_digit_byte(
                            #[trigger] non_ws(s)[k],
                        ) by {
                            assert(non_ws(s)[k] == non_ws(s.take(p + 1))[k]);
                            assert(non_ws(s.take(p + 1))[k] == fp[k]);
                        }
                        assert(!(non_ws(s).len() > 81 && (forall|k: int|
                            0 <= k < 81 ==> is_digit_byte(#[trigger] non_ws(s)[k]))));
                        assert(!(non_ws(s).len() < 81 && (forall|k: int|
                            0 <= k < non_ws(s).len() ==> is_digit_byte(
                                #[trigger] non_ws(s)[k],
                            ))));
                    }
                    return Err(ParseError::InvalidChar(c));
                }
            } else {
                proof {
                    assert(non_ws(s.take(p + 1)) == fp);
                }
            }
            p = p + 1;
        }
        proof {
            assert(s.take(p as int) =~= s);
        }
        if cnt < 81 {
            return Err(ParseError::TooFewNumbers);
        }
        proof {
            assert(digits_of(inner@) =~= parsed_digits(s));
        }
        match Board::new(inner) {
            Result::Ok(b) => Ok(b),
            Result::Err(e) => Err(ParseError::IllegalGrid(e)),
        }
    }

    /// The grid's text form as ASCII bytes: nine lines of nine space-separated
    /// digit characters, 0 for a vacant cell.
    pub fn to_text(&self) -> (r: Vec<u8>)
        requires
            self.inv(),
        ensures
            r@ == render(self@),
    {
        let mut out: Vec<u8> = Vec::new();
        let mut rw: u8 = 0;
        while rw < 9
            invariant
                self.inv(),
                rw <= 9,
                out@.len() == 18 * rw,
                forall|p: int| 0 <= p < out@.len() ==> out@[p] == render(self@)[p],
            decreases 9 - rw,
        {
            let mut c: u8 = 0;
            while c < 9
                invariant
                    self.inv(),
                    rw < 9,
                    c <= 9,
                    out@.len() == 18 * rw + (if c < 9 {
                        2 * c as int
                    } else {
                        17int
                    }),
                    forall|p: int| 0 <= p < out@.len() ==> out@[p] == render(self@)[p],
                decreases 9 - c,
            {
                let cell: u8 = 9 * rw + c;
                let sq = Square::new_unchecked(cell);
                let v = self.get_raw(sq);
                let ghost pd = out@.len() as int;
                out.push(v + 48);
                proof {
                    vstd::arithmetic::div_mod::lemma_fundamental_div_mod_converse(
                        pd,
                        18,
                        rw as int,
                        2 * c as int,
                    );
                    assert(render(self@)[pd] == (self@[9 * (rw as int) + c as int] + 48) as u8);
                }
                if c < 8 {
                    let ghost ps = out@.len() as int;
                    out.push(32u8);
                    proof {
                        vstd::arithmetic::div_mod::lemma_fundamental_div_mod_converse(
                            ps,
                            18,
                            rw as int,
                            2 * c as int + 1,
                        );
                        assert(render(self@)[ps] == 32u8);
                    }
                }
                c = c + 1;
            }
            let ghost pn = out@.len() as int;
            out.push(10u8);
            proof {
                vstd::arithmetic::div_mod::lemma_fundamental_div_mod_converse(
                    pn,
                    18,
                    rw as int,
                    17,
                );
                assert(render(self@)[pn] == 10u8);
            }
            rw = rw + 1;
        }
        proof {
            assert(out@ =~= render(self@));
        }
        out
    }
}

/// Scanning a rendered grid's first `p` bytes yields exactly its first
/// `rendered_digits(p)` digit characters.
proof fn lemma_render_scan(b: Seq<u8>, p: int)
    requires
        wf_grid(b),
        0 <= p <= 162,
    ensures
        0 <= rendered_digits(p) <= 81,
        non_ws(render(b).take(p)) == encoded(b).take(rendered_digits(p)),
    decreases p,
{
    let s = render(b);
    if p == 0 {
        assert(s.take(0) =~= Seq::<u8>::empty());
        assert(non_ws(s.take(0)) =~= encoded(b).take(0));
    } else {
        lemma_render_scan(b, p - 1);
        assert(s.take(p).drop_last() =~= s.take(p - 1));
        assert(s.take(p).last() == s[p - 1]);
        let q = (p - 1) / 18;
        let t = (p - 1) % 18;
        vstd::arithmetic::div_mod::lemma_fundamental_div_mod(p - 1, 18);
        assert(0 <= t < 18 && 0 <= q < 9) by (nonlinear_arith)
            requires
                0 <= p - 1 < 162 && q == (p - 1) / 18 && t == (p - 1) % 18,
        ;
        if t < 17 {
            vstd::arithmetic::div_mod::lemma_fundamental_div_mod_converse(p, 18, q, t + 1);
        } else {
            vstd::arithmetic::div_mod::lemma_fundamental_div_mod_converse(p, 18, q + 1, 0);
        }
        if t == 17 || t % 2 == 1 {
            assert(is_ws(s[p - 1]));
            assert(non_ws(s.take(p)) == non_ws(s.take(p - 1)));
            assert(rendered_digits(p) == rendered_digits(p - 1)) by (nonlinear_arith)
                requires
                    0 <= t < 18 && (t == 17 || t % 2 == 1) && rendered_digits(p - 1) == 9 * q + (t
                        + 1) / 2 && rendered_digits(p) == (if t < 17 {
                        9 * q + (t + 2) / 2
                    } else {
                        9 * (q + 1)
                    }),
            ;
        } else {
            assert(t % 2 == 0 && t < 17);
            assert(s[p - 1] == (b[9 * q + t / 2] + 48) as u8);
            assert(!is_ws(s[p - 1])) by {
                assert(b[9 * q + t / 2] <= 9);
            }
            assert(non_ws(s.take(p)) == non_ws(s.take(p - 1)).push(s[p - 1]));
            let n = rendered_digits(p - 1);
            assert(n == 9 * q + t / 2 && rendered_digits(p) == n + 1) by (nonlinear_arith)
                requires
                    0 <= t < 17 && t % 2 == 0 && n == 9 * q + (t + 1) / 2 && rendered_digits(p)
                        == 9 * q + (t + 2) / 2,
            ;
            assert(0 <= 9 * q + t / 2 < 81);
            assert(encoded(b)[n] == s[p - 1]);
            assert(encoded(b).take(n + 1) =~= encoded(b).take(n).push(encoded(b)[n]));
        }
    }
}

/// Rendering a valid grid and dropping whitespace gives back exactly its 81
/// digit characters: re-parsing the text therefore reproduces the grid.
pub proof fn lemma_text_round_trip(b: Seq<u8>)
    requires
        valid_grid(b),
    ensures
        non_ws(render(b)).len() == 81,
        forall|k: int| 0 <= k < 81 ==> is_digit_byte(#[trigger] non_ws(render(b))[k]),
        parsed_digits(render(b)) == b,
        valid_grid(parsed_digits(render(b))),
{
    lemma_render_scan(b, 162);
    assert(render(b).take(162) =~= render(b));
    vstd::arithmetic::div_mod::lemma_fundamental_div_mod_converse(162, 18, 9, 0);
    assert(rendered_digits(162) == 81);
    assert(encoded(b).take(81) =~= encoded(b));
    assert(non_ws(render(b)) == encoded(b));
    assert forall|k: int| 0 <= k < 81 implies is_digit_byte(#[trigger] non_ws(render(b))[k]) by {
        assert(encoded(b)[k] == (b[k] + 48) as u8);
    }
    assert(parsed_digits(render(b)) =~= b);
}

} // verus!
