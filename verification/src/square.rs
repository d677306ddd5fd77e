//! Validated index types for cells, columns, rows, and blocks, and the
//! arithmetic tying a cell to the groups containing it.

use vstd::prelude::*;

use crate::model::{block_cell, block_of, col_of, lemma_block_cell, lemma_cell_decompose, row_of};

verus! {

/// A column index 0..=8.
#[derive(Clone, Copy, Debug, PartialEq, Eq, Structural)]
pub struct Col {
    v: u8,
}

impl Col {
    pub const MIN_VALUE: u8 = 0;

    pub const MAX_VALUE: u8 = 8;

    /// How many columns there are.
    pub const NUM: usize = 9;

    #[verifier::type_invariant]
    pub closed spec fn inv(self) -> bool {
        self.v <= 8
    }

    /// The column's numeric value.
    pub closed spec fn spec_get(self) -> u8 {
        self.v
    }

    /// Makes a column index; `None` if out of range.
    pub fn new(inner: u8) -> (r: Option<Self>)
        ensures
            r is Some <==> inner <= 8,
            r matches Some(c) ==> c.spec_get() == inner,
    {
        if inner <= 8 {
            Some(Self { v: inner })
        } else {
            None
        }
    }

    /// Makes a column index from a value already known to be in range.
    pub fn new_unchecked(inner: u8) -> (r: Self)
        requires
            inner <= 8,
        ensures
            r.spec_get() == inner,
    {
        Self { v: inner }
    }

    /// Returns the numeric value.
    #[verifier::when_used_as_spec(spec_get)]
    pub fn get(self) -> (r: u8)
        ensures
            r == self.spec_get(),
            r <= 8,
    {
        proof {
            use_type_invariant(self);
        }
        self.v
    }

    /// All columns, ascending.
    pub fn all() -> (r: Vec<Self>)
        ensures
            r@.len() == 9,
            forall|k: int| 0 <= k < 9 ==> r@[k].spec_get() == k,
    {
        let mut v: Vec<Self> = Vec::new();
        let mut i: u8 = 0;
        while i < 9
            invariant
                i <= 9,
                v@.len() == i,
                forall|k: int| 0 <= k < i ==> v@[k].spec_get() == k,
            decreases 9 - i,
        {
            v.push(Self { v: i });
            i = i + 1;
        }
        v
    }
}

/// A row index 0..=8.
#[derive(Clone, Copy, Debug, PartialEq, Eq, Structural)]
pub struct Row {
    v: u8,
}

impl Row {
    pub const MIN_VALUE: u8 = 0;

    pub const MAX_VALUE: u8 = 8;

    /// How many rows there are.
    pub const NUM: usize = 9;

    #[verifier::type_invariant]
    pub closed spec fn inv(self) -> bool {
        self.v <= 8
    }

    /// The row's numeric value.
    pub closed spec fn spec_get(self) -> u8 {
        self.v
    }

    /// Makes a row index; `None` if out of range.
    pub fn new(inner: u8) -> (r: Option<Self>)
        ensures
            r is Some <==> inner <= 8,
            r matches Some(c) ==> c.spec_get() == inner,
    {
        if inner <= 8 {
            Some(Self { v: inner })
        } else {
            None
        }
    }

    /// Makes a row index from a value already known to be in range.
    pub fn new_unchecked(inner: u8) -> (r: Self)
        requires
            inner <= 8,
        ensures
            r.spec_get() == inner,
    {
        Self { v: inner }
    }

    /// Returns the numeric value.
    #[verifier::when_used_as_spec(spec_get)]
    pub fn get(self) -> (r: u8)
        ensures
            r == self.spec_get(),
            r <= 8,
    {
        proof {
            use_type_invariant(self);
        }
        self.v
    }

    /// All rows, ascending.
    pub fn all() -> (r: Vec<Self>)
        ensures
            r@.len() == 9,
            forall|k: int| 0 <= k < 9 ==> r@[k].spec_get() == k,
    {
        let mut v: Vec<Self> = Vec::new();
        let mut i: u8 = 0;
        while i < 9
            invariant
                i <= 9,
                v@.len() == i,
                forall|k: int| 0 <= k < i ==> v@[k].spec_get() == k,
            decreases 9 - i,
        {
            v.push(Self { v: i });
            i = i + 1;
        }
        v
    }
}

/// A block index 0..=8; blocks are arranged
///
/// ```text
/// 0 1 2
/// 3 4 5
/// 6 7 8
/// ```
#[derive(Clone, Copy, Debug, PartialEq, Eq, Structural)]
pub struct Block {
    v: u8,
}

impl Block {
    pub const MIN_VALUE: u8 = 0;

    pub const MAX_VALUE: u8 = 8;

    /// How many blocks there are.
    pub const NUM: usize = 9;

    #[verifier::type_invariant]
    pub closed spec fn inv(self) -> bool {
        self.v <= 8
    }

    /// The block's numeric value.
    pub closed spec fn spec_get(self) -> u8 {
        self.v
    }

    /// Makes a block index; `None` if out of range.
    pub fn new(inner: u8) -> (r: Option<Self>)
        ensures
            r is Some <==> inner <= 8,
            r matches Some(c) ==> c.spec_get() == inner,
    {
        if inner <= 8 {
            Some(Self { v: inner })
        } else {
            None
        }
    }

    /// Makes a block index from a value already known to be in range.
    pub fn new_unchecked(inner: u8) -> (r: Self)
        requires
            inner <= 8,
        ensures
            r.spec_get() == inner,
    {
        Self { v: inner }
    }

    /// Returns the numeric value.
    #[verifier::when_used_as_spec(spec_get)]
    pub fn get(self) -> (r: u8)
        ensures
            r == self.spec_get(),
            r <= 8,
    {
        proof {
            use_type_invariant(self);
        }
        self.v
    }

    /// All blocks, ascending.
    pub fn all() -> (r: Vec<Self>)
        ensures
            r@.len() == 9,
            forall|k: int| 0 <= k < 9 ==> r@[k].spec_get() == k,
    {
        let mut v: Vec<Self> = Vec::new();
        let mut i: u8 = 0;
        while i < 9
            invariant
                i <= 9,
                v@.len() == i,
                forall|k: int| 0 <= k < i ==> v@[k].spec_get() == k,
            decreases 9 - i,
        {
            v.push(Self { v: i });
            i = i + 1;
        }
        v
    }
}

/// One of the 81 cells, numbered 0..=80 in row-major order.
#[derive(Clone, Copy, Debug, PartialEq, Eq, Structural)]
pub struct Square {
    v: u8,
}

impl Square {
    pub const MIN_VALUE: u8 = 0;

    pub const MAX_VALUE: u8 = 80;

    /// How many cells there are.
    pub const NUM: usize = 81;

    #[verifier::type_invariant]
    pub closed spec fn inv(self) -> bool {
        self.v <= 80
    }

    /// The cell's numeric value.
    pub closed spec fn spec_get(self) -> u8 {
        self.v
    }

    /// Makes a cell index; `None` if out of range.
    pub fn new(inner: u8) -> (r: Option<Self>)
        ensures
            r is Some <==> inner <= 80,
            r matches Some(c) ==> c.spec_get() == inner,
    {
        if inner <= 80 {
            Some(Self { v: inner })
        } else {
            None
        }
    }

    /// Makes a cell index from a value already known to be in range.
    pub fn new_unchecked(inner: u8) -> (r: Self)
        requires
            inner <= 80,
        ensures
            r.spec_get() == inner,
    {
        Self { v: inner }
    }

    /// Returns the numeric value.
    #[verifier::when_used_as_spec(spec_get)]
    pub fn get(self) -> (r: u8)
        ensures
            r == self.spec_get(),
            r <= 80,
    {
        proof {
            use_type_invariant(self);
        }
        self.v
    }

    /// The cell at the given column and row.
    pub fn from_col_row(col: Col, row: Row) -> (r: Self)
        ensures
            r.spec_get() == 9 * row.spec_get() + col.spec_get(),
            row_of(r.spec_get() as int) == row.spec_get(),
            col_of(r.spec_get() as int) == col.spec_get(),
    {
        proof {
            use_type_invariant(col);
            use_type_invariant(row);
            vstd::arithmetic::div_mod::lemma_fundamental_div_mod_converse(
                9 * row.spec_get() + col.spec_get(),
                9,
                row.spec_get() as int,
                col.spec_get() as int,
            );
        }
        Self { v: 9 * row.get() + col.get() }
    }

    /// The column containing this cell.
    pub fn col(self) -> (r: Col)
        ensures
            r.spec_get() == col_of(self.spec_get() as int),
    {
        proof {
            use_type_invariant(self);
        }
        Col { v: self.v % 9 }
    }

    /// The row containing this cell.
    pub fn row(self) -> (r: Row)
        ensures
            r.spec_get() == row_of(self.spec_get() as int),
    {
        proof {
            use_type_invariant(self);
        }
        Row { v: self.v / 9 }
    }

    /// The block containing this cell.
    pub fn block(self) -> (r: Block)
        ensures
            r.spec_get() == block_of(self.spec_get() as int),
    {
        proof {
            use_type_invariant(self);
            lemma_cell_decompose(self.spec_get() as int);
        }
        Block { v: 3 * (self.v / 27) + (self.v % 9) / 3 }
    }

    /// All cells, ascending.
    pub fn all() -> (r: Vec<Self>)
        ensures
            r@.len() == 81,
            forall|k: int| 0 <= k < 81 ==> r@[k].spec_get() == k,
    {
        let mut v: Vec<Self> = Vec::new();
        let mut i: u8 = 0;
        while i < 81
            invariant
                i <= 81,
                v@.len() == i,
                forall|k: int| 0 <= k < i ==> v@[k].spec_get() == k,
            decreases 81 - i,
        {
            v.push(Self { v: i });
            i = i + 1;
        }
        v
    }

    /// The nine cells of column `col`, ascending.
    pub fn col_all(col: Col) -> (r: Vec<Self>)
        ensures
            r@.len() == 9,
            forall|k: int|
                0 <= k < 9 ==> {
                    &&& r@[k].spec_get() == col.spec_get() + 9 * k
                    &&& col_of(r@[k].spec_get() as int) == col.spec_get()
                    &&& row_of(r@[k].spec_get() as int) == k
                },
    {
        proof {
            use_type_invariant(col);
        }
        let base: u8 = col.get();
        let mut v: Vec<Self> = Vec::new();
        let mut i: u8 = 0;
        while i < 9
            invariant
                i <= 9,
                base <= 8,
                v@.len() == i,
                forall|k: int|
                    0 <= k < i ==> {
                        &&& v@[k].spec_get() == base + 9 * k
                        &&& col_of(v@[k].spec_get() as int) == base
                        &&& row_of(v@[k].spec_get() as int) == k
                    },
            decreases 9 - i,
        {
            let cell: u8 = base + 9 * i;
            proof {
                vstd::arithmetic::div_mod::lemma_fundamental_div_mod_converse(
                    cell as int,
                    9,
                    i as int,
                    base as int,
                );
            }
            v.push(Self { v: cell });
            i = i + 1;
        }
        v
    }

    /// The nine cells of row `row`, ascending.
    pub fn row_all(row: Row) -> (r: Vec<Self>)
        ensures
            r@.len() == 9,
            forall|k: int|
                0 <= k < 9 ==> {
                    &&& r@[k].spec_get() == 9 * row.spec_get() + k
                    &&& row_of(r@[k].spec_get() as int) == row.spec_get()
                    &&& col_of(r@[k].spec_get() as int) == k
                },
    {
        proof {
            use_type_invariant(row);
        }
        let base: u8 = 9 * row.get();
        let mut v: Vec<Self> = Vec::new();
        let mut i: u8 = 0;
        while i < 9
            invariant
                i <= 9,
                base == 9 * row.spec_get(),
                row.spec_get() <= 8,
                v@.len() == i,
                forall|k: int|
                    0 <= k < i ==> {
                        &&& v@[k].spec_get() == base + k
                        &&& row_of(v@[k].spec_get() as int) == row.spec_get()
                        &&& col_of(v@[k].spec_get() as int) == k
                    },
            decreases 9 - i,
        {
            let cell: u8 = base + i;
            proof {
                vstd::arithmetic::div_mod::lemma_fundamental_div_mod_converse(
                    cell as int,
                    9,
                    row.spec_get() as int,
                    i as int,
                );
            }
            v.push(Self { v: cell });
            i = i + 1;
        }
        v
    }

    /// The nine cells of block `block`, ascending.
    pub fn block_all(block: Block) -> (r: Vec<Self>)
        ensures
            r@.len() == 9,
            forall|k: int|
                0 <= k < 9 ==> {
                    &&& r@[k].spec_get() == block_cell(block.spec_get() as int, k)
                    &&& block_of(r@[k].spec_get() as int) == block.spec_get()
                },
    {
        proof {
            use_type_invariant(block);
        }
        let b: u8 = block.get();
        let base: u8 = 27 * (b / 3) + 3 * (b % 3);
        let mut v: Vec<Self> = Vec::new();
        let mut i: u8 = 0;
        while i < 9
            invariant
                i <= 9,
                b == block.spec_get(),
                b <= 8,
                base == 27 * (b as int / 3) + 3 * (b as int % 3),
                base <= 60,
                v@.len() == i,
                forall|k: int|
                    0 <= k < i ==> {
                        &&& v@[k].spec_get() == block_cell(b as int, k)
                        &&& block_of(v@[k].spec_get() as int) == b
                    },
            decreases 9 - i,
        {
            let cell: u8 = base + 9 * (i / 3) + (i % 3);
            proof {
                lemma_block_cell(b as int, i as int);
            }
            v.push(Self { v: cell });
            i = i + 1;
        }
        v
    }
}

} // verus!
