//! The search engine: one grid plus one constraint tracker, kept exactly
//! consistent, with the backtracking procedures and the puzzle generator
//! built on them.

use rand::seq::SliceRandom;
use vstd::prelude::*;

use crate::bitboard::Bitboard;
use crate::bits::lemma_clear_then_set;
use crate::board::Board;
use crate::model::{
    best_vacant, block_of, col_of, count_legal_from, digit_in_block, digit_in_col, digit_in_row,
    empty_grid, filled_count, first_solution, first_solution_from, full_grid,
    grid_extends, is_completion, legal_at, lemma_blank_keeps_valid, lemma_cell_decompose,
    lemma_completion_digit_legal, lemma_completion_of_update, lemma_completion_to_update,
    lemma_best_vacant_from, lemma_first_solution_sound, lemma_full_unique,
    lemma_place_keeps_valid, lemma_search_nodes_from_lb, lemma_search_nodes_pos,
    lemma_search_skip, lemma_vacant_finite, row_of, search_nodes, search_nodes_from, solvable,
    two_completions, uniquely_solvable, vacant_cells, valid_grid,
};
use crate::number::Number;
use crate::square::Square;
use crate::used_mask::UsedMasks;

verus! {

/// One Sudoku position: the grid and the tracker of used digits.
#[derive(Debug)]
pub struct Sudoku {
    board: Board,
    used_masks: UsedMasks,
}

impl View for Sudoku {
    type V = Seq<u8>;

    closed spec fn view(&self) -> Seq<u8> {
        self.board@
    }
}

impl Clone for Sudoku {
    /// An independent copy of the position.
    fn clone(&self) -> (r: Self)
        ensures
            r@ == self@,
            r.state_eq(*self),
            self.wf() ==> r.wf(),
    {
        let r = Sudoku { board: self.board.clone(), used_masks: self.used_masks };
        proof {
            if self.wf() {
                assert(r.wf());
            }
        }
        r
    }
}

impl Sudoku {
    /// The tracker agrees with the grid: a digit is marked unused in a group
    /// exactly when it appears nowhere in that group.
    pub closed spec fn masks_ok(self) -> bool {
        &&& self.used_masks.wf()
        &&& forall|g: int, d: int|
            0 <= g < 9 && 1 <= d <= 9 ==> (self.used_masks.col_mask.unused(g, d)
                <==> !digit_in_col(self.board@, g, d as u8))
        &&& forall|g: int, d: int|
            0 <= g < 9 && 1 <= d <= 9 ==> (self.used_masks.row_mask.unused(g, d)
                <==> !digit_in_row(self.board@, g, d as u8))
        &&& forall|g: int, d: int|
            0 <= g < 9 && 1 <= d <= 9 ==> (self.used_masks.block_mask.unused(g, d)
                <==> !digit_in_block(self.board@, g, d as u8))
    }

    /// The position's invariant: a valid grid and a tracker that exactly
    /// reflects it.
    pub closed spec fn wf(self) -> bool {
        &&& self.board.inv()
        &&& self.masks_ok()
    }

    /// Both the grid and the tracker are equal.
    pub closed spec fn state_eq(self, other: Sudoku) -> bool {
        self.board@ == other.board@ && self.used_masks == other.used_masks
    }

    /// `state_eq` is at least grid equality.
    pub proof fn lemma_state_eq_view(self, other: Sudoku)
        requires
            self.state_eq(other),
        ensures
            self@ == other@,
    {
    }

    /// Legality per the masks is legality per the grid.
    proof fn lemma_legal_equiv(self, i: int, d: u8)
        requires
            self.wf(),
            0 <= i < 81,
            1 <= d <= 9,
        ensures
            self.used_masks.spec_legal(i, d as int) <==> legal_at(self.board@, i, d),
    {
        lemma_cell_decompose(i);
    }

    /// The tracker's candidate count agrees with the model's.
    proof fn lemma_count_equiv(self, i: int, dlo: int)
        requires
            self.wf(),
            0 <= i < 81,
        ensures
            self.used_masks.count_from(i, dlo) == count_legal_from(self.board@, i, dlo),
        decreases 10 - dlo,
    {
        if 1 <= dlo <= 9 {
            self.lemma_legal_equiv(i, dlo as u8);
            self.lemma_count_equiv(i, dlo + 1);
        }
    }

    /// A vacant cell with minimal candidate count and, among those, minimal
    /// index, is exactly the model's `best_vacant` choice.
    proof fn lemma_pop_matches_best(self, iv: u8)
        requires
            self.wf(),
            iv <= 80,
            self.board@[iv as int] == 0,
            forall|j: int|
                vacant_cells(self.board@).contains(j) ==> self.n_cands(iv as int)
                    <= self.n_cands(j),
            forall|j: int|
                vacant_cells(self.board@).contains(j) && self.n_cands(j) == self.n_cands(
                    iv as int,
                ) ==> iv as int <= j,
        ensures
            best_vacant(self.board@) == Some(iv as int),
    {
        let b = self.board@;
        lemma_best_vacant_from(b, 0);
        match best_vacant(b) {
            Option::None => {
                assert(b[iv as int] != 0);
            },
            Option::Some(is) => {
                self.lemma_count_equiv(is, 1);
                self.lemma_count_equiv(iv as int, 1);
                assert(vacant_cells(b).contains(is));
                assert(vacant_cells(b).contains(iv as int));
                assert(is == iv as int);
            },
        }
    }

    /// No candidate value lies in `[e1, e2)`, so every digit there is illegal
    /// and the search spec skips straight from `e1` to `e2`.
    proof fn lemma_gap_skip(self, i: int, cands: Seq<Number>, e1: int, e2: int)
        requires
            self.wf(),
            0 <= i < 81,
            self.board@[i] == 0,
            1 <= e1 <= e2 <= 10,
            forall|d: int|
                1 <= d <= 9 && self.used_masks.spec_legal(i, d) ==> exists|t: int|
                    0 <= t < cands.len() && (#[trigger] cands[t].spec_get()) as int == d,
            forall|t: int| 0 <= t < cands.len() ==> !(e1 <= (#[trigger] cands[t].spec_get()) < e2),
        ensures
            search_nodes_from(self.board@, i, e1) == search_nodes_from(self.board@, i, e2),
            first_solution_from(self.board@, i, e1) == first_solution_from(self.board@, i, e2),
    {
        let b = self.board@;
        assert forall|e: int| e1 <= e < e2 implies !(#[trigger] legal_at(b, i, e as u8)) by {
            if legal_at(b, i, e as u8) {
                self.lemma_legal_equiv(i, e as u8);
                assert(self.used_masks.spec_legal(i, e));
                let t = choose|t: int|
                    0 <= t < cands.len() && (#[trigger] cands[t].spec_get()) as int == e;
                assert(!(e1 <= cands[t].spec_get() < e2));
            }
        }
        lemma_search_skip(b, i, e1, e2);
    }

    /// Builds the position for a grid, scanning it once to set up the tracker.
    pub fn new(board: Board) -> (r: Self)
        requires
            board.inv(),
        ensures
            r.wf(),
            r@ == board@,
    {
        let ghost b = board@;
        let mut used_masks = UsedMasks::all_unused();
        let mut i: u8 = 0;
        while i < 81
            invariant
                board.inv(),
                b == board@,
                i <= 81,
                used_masks.wf(),
                forall|g: int, d: int|
                    0 <= g < 9 && 1 <= d <= 9 ==> (used_masks.col_mask.unused(g, d)
                        <==> !digit_in_col_upto(b, g, d as u8, i as int)),
                forall|g: int, d: int|
                    0 <= g < 9 && 1 <= d <= 9 ==> (used_masks.row_mask.unused(g, d)
                        <==> !digit_in_row_upto(b, g, d as u8, i as int)),
                forall|g: int, d: int|
                    0 <= g < 9 && 1 <= d <= 9 ==> (used_masks.block_mask.unused(g, d)
                        <==> !digit_in_block_upto(b, g, d as u8, i as int)),
            decreases 81 - i,
        {
            let sq = Square::new_unchecked(i);
            let v = board.get_raw(sq);
            let ghost m0 = used_masks;
            if v != 0 {
                let num = Number::new_unchecked(v);
                used_masks.use_number(sq, num);
                proof {
                    lemma_cell_decompose(i as int);
                    assert forall|g: int, d: int|
                        0 <= g < 9 && 1 <= d <= 9 implies (used_masks.col_mask.unused(g, d)
                        <==> !digit_in_col_upto(b, g, d as u8, i + 1)) by {
                        lemma_upto_step_col(b, g, d as u8, i as int);
                    }
                    assert forall|g: int, d: int|
                        0 <= g < 9 && 1 <= d <= 9 implies (used_masks.row_mask.unused(g, d)
                        <==> !digit_in_row_upto(b, g, d as u8, i + 1)) by {
                        lemma_upto_step_row(b, g, d as u8, i as int);
                    }
                    assert forall|g: int, d: int|
                        0 <= g < 9 && 1 <= d <= 9 implies (used_masks.block_mask.unused(g, d)
                        <==> !digit_in_block_upto(b, g, d as u8, i + 1)) by {
                        lemma_upto_step_block(b, g, d as u8, i as int);
                    }
                }
            } else {
                proof {
                    lemma_cell_decompose(i as int);
                    assert forall|g: int, d: int|
                        0 <= g < 9 && 1 <= d <= 9 implies (used_masks.col_mask.unused(g, d)
                        <==> !digit_in_col_upto(b, g, d as u8, i + 1)) by {
                        lemma_upto_step_col(b, g, d as u8, i as int);
                    }
                    assert forall|g: int, d: int|
                        0 <= g < 9 && 1 <= d <= 9 implies (used_masks.row_mask.unused(g, d)
                        <==> !digit_in_row_upto(b, g, d as u8, i + 1)) by {
                        lemma_upto_step_row(b, g, d as u8, i as int);
                    }
                    assert forall|g: int, d: int|
                        0 <= g < 9 && 1 <= d <= 9 implies (used_masks.block_mask.unused(g, d)
                        <==> !digit_in_block_upto(b, g, d as u8, i + 1)) by {
                        lemma_upto_step_block(b, g, d as u8, i as int);
                    }
                }
            }
            i = i + 1;
        }
        let r = Sudoku { board, used_masks };
        proof {
            assert forall|g: int, d: int|
                0 <= g < 9 && 1 <= d <= 9 implies (r.used_masks.col_mask.unused(g, d)
                <==> !digit_in_col(r.board@, g, d as u8)) by {
                assert(digit_in_col_upto(b, g, d as u8, 81) == digit_in_col(b, g, d as u8));
            }
            assert forall|g: int, d: int|
                0 <= g < 9 && 1 <= d <= 9 implies (r.used_masks.row_mask.unused(g, d)
                <==> !digit_in_row(r.board@, g, d as u8)) by {
                assert(digit_in_row_upto(b, g, d as u8, 81) == digit_in_row(b, g, d as u8));
            }
            assert forall|g: int, d: int|
                0 <= g < 9 && 1 <= d <= 9 implies (r.used_masks.block_mask.unused(g, d)
                <==> !digit_in_block(r.board@, g, d as u8)) by {
                assert(digit_in_block_upto(b, g, d as u8, 81) == digit_in_block(b, g, d as u8));
            }
        }
        r
    }

    /// The grid.
    pub fn board(&self) -> (r: &Board)
        ensures
            r@ == self@,
    {
        &self.board
    }

    /// Whether the grid is fully filled.
    pub fn is_solved(&self) -> (r: bool)
        requires
            self.wf(),
        ensures
            r == full_grid(self@),
    {
        self.board.is_solved()
    }

    /// Whether digit `num` may be written into cell `sq`: it appears nowhere
    /// in the cell's row, column, or block.
    pub fn is_legal(&self, sq: Square, num: Number) -> (r: bool)
        requires
            self.wf(),
        ensures
            r == legal_at(self@, sq.spec_get() as int, num.spec_get()),
    {
        let i: u8 = sq.get();
        let dv: u8 = num.get();
        proof {
            self.lemma_legal_equiv(i as int, dv);
        }
        self.used_masks.is_legal(sq, num)
    }

    /// Attempts to write digit `num` into vacant cell `sq`; returns whether it
    /// was written. The position is unchanged when the move is refused.
    pub fn put(&mut self, sq: Square, num: Number) -> (r: bool)
        requires
            old(self).wf(),
        ensures
            final(self).wf(),
            r == (old(self)@[sq.spec_get() as int] == 0 && legal_at(
                old(self)@,
                sq.spec_get() as int,
                num.spec_get(),
            )),
            r ==> final(self)@ == old(self)@.update(sq.spec_get() as int, num.spec_get()),
            !r ==> final(self).state_eq(*old(self)) && final(self)@ == old(self)@,
    {
        if self.board.get_raw(sq) != 0 {
            return false;
        }
        if !self.is_legal(sq, num) {
            return false;
        }
        self.put_number(sq, num);
        true
    }

    /// Writes digit `num` into vacant cell `sq` and marks it used, keeping the
    /// tracker exactly consistent.
    fn put_number(&mut self, sq: Square, num: Number)
        requires
            old(self).wf(),
            old(self).board@[sq.spec_get() as int] == 0,
            legal_at(old(self).board@, sq.spec_get() as int, num.spec_get()),
        ensures
            final(self).wf(),
            final(self).board@ == old(self).board@.update(
                sq.spec_get() as int,
                num.spec_get(),
            ),
            final(self).used_masks.col_mask.m == old(self).used_masks.col_mask.m & !(1u128 << ((9
                * col_of(sq.spec_get() as int) + num.spec_get() - 1) as u128)),
            final(self).used_masks.row_mask.m == old(self).used_masks.row_mask.m & !(1u128 << ((9
                * row_of(sq.spec_get() as int) + num.spec_get() - 1) as u128)),
            final(self).used_masks.block_mask.m == old(self).used_masks.block_mask.m & !(1u128
                << ((9 * block_of(sq.spec_get() as int) + num.spec_get() - 1) as u128)),
    {
        let iv: u8 = sq.get();
        let nv: u8 = num.get();
        proof {
            let i = iv as int;
            lemma_cell_decompose(i);
            lemma_place_keeps_valid(old(self).board@, i, num.spec_get());
        }
        self.board.set_cell(sq, nv);
        self.used_masks.use_number(sq, num);
        proof {
            let i = sq.spec_get() as int;
            let n = num.spec_get();
            let b0 = old(self).board@;
            let b1 = self.board@;
            assert forall|g: int, d: int|
                0 <= g < 9 && 1 <= d <= 9 implies (self.used_masks.col_mask.unused(g, d)
                <==> !digit_in_col(b1, g, d as u8)) by {
                lemma_place_digit_col(b0, i, n, g, d as u8);
            }
            assert forall|g: int, d: int|
                0 <= g < 9 && 1 <= d <= 9 implies (self.used_masks.row_mask.unused(g, d)
                <==> !digit_in_row(b1, g, d as u8)) by {
                lemma_place_digit_row(b0, i, n, g, d as u8);
            }
            assert forall|g: int, d: int|
                0 <= g < 9 && 1 <= d <= 9 implies (self.used_masks.block_mask.unused(g, d)
                <==> !digit_in_block(b1, g, d as u8)) by {
                lemma_place_digit_block(b0, i, n, g, d as u8);
            }
        }
    }

    /// Erases digit `num` from cell `sq` and marks it unused again; exactly
    /// reverses a matching `put_number`.
    fn remove_number(&mut self, sq: Square, num: Number)
        requires
            old(self).wf(),
            old(self).board@[sq.spec_get() as int] == num.spec_get(),
        ensures
            final(self).wf(),
            final(self).board@ == old(self).board@.update(sq.spec_get() as int, 0u8),
            legal_at(final(self).board@, sq.spec_get() as int, num.spec_get()),
            final(self).used_masks.col_mask.m == old(self).used_masks.col_mask.m | (1u128 << ((9
                * col_of(sq.spec_get() as int) + num.spec_get() - 1) as u128)),
            final(self).used_masks.row_mask.m == old(self).used_masks.row_mask.m | (1u128 << ((9
                * row_of(sq.spec_get() as int) + num.spec_get() - 1) as u128)),
            final(self).used_masks.block_mask.m == old(self).used_masks.block_mask.m | (1u128
                << ((9 * block_of(sq.spec_get() as int) + num.spec_get() - 1) as u128)),
    {
        let iv: u8 = sq.get();
        let nv: u8 = num.get();
        proof {
            let i = iv as int;
            lemma_cell_decompose(i);
            lemma_blank_keeps_valid(old(self).board@, i);
        }
        self.board.set_cell(sq, 0);
        self.used_masks.unuse_number(sq, num);
        proof {
            let i = sq.spec_get() as int;
            let n = num.spec_get();
            let b0 = old(self).board@;
            let b1 = self.board@;
            assert forall|g: int, d: int|
                0 <= g < 9 && 1 <= d <= 9 implies (self.used_masks.col_mask.unused(g, d)
                <==> !digit_in_col(b1, g, d as u8)) by {
                lemma_erase_digit_col(b0, i, n, g, d as u8);
            }
            assert forall|g: int, d: int|
                0 <= g < 9 && 1 <= d <= 9 implies (self.used_masks.row_mask.unused(g, d)
                <==> !digit_in_row(b1, g, d as u8)) by {
                lemma_erase_digit_row(b0, i, n, g, d as u8);
            }
            assert forall|g: int, d: int|
                0 <= g < 9 && 1 <= d <= 9 implies (self.used_masks.block_mask.unused(g, d)
                <==> !digit_in_block(b1, g, d as u8)) by {
                lemma_erase_digit_block(b0, i, n, g, d as u8);
            }
            assert(self.wf());
            self.lemma_legal_equiv(i, num.spec_get());
        }
    }
}

impl Sudoku {
    /// Whether the position has a completion; the position itself is left
    /// unchanged.
    pub fn is_solvable(&mut self) -> (r: bool)
        requires
            old(self).wf(),
        ensures
            final(self).wf(),
            final(self).state_eq(*old(self)),
            final(self)@ == old(self)@,
            r == solvable(old(self)@),
    {
        let bb_vacant = calc_bb_vacant(&self.board);
        self.is_solvable_impl(bb_vacant)
    }

    /// Tries to complete the grid in place. On success the grid is exactly
    /// `first_solution` of the start grid: the first completion in
    /// most-constrained-first, ascending-digit order, so equal starting grids
    /// always end in equal solved grids. On failure every placement is undone
    /// and the position is exactly as on entry.
    pub fn solve(&mut self) -> (r: bool)
        requires
            old(self).wf(),
        ensures
            final(self).wf(),
            r == solvable(old(self)@),
            r ==> is_completion(final(self)@, old(self)@),
            r ==> first_solution(old(self)@) == Some(final(self)@),
            !r ==> final(self).state_eq(*old(self)) && final(self)@ == old(self)@,
    {
        let bb_vacant = calc_bb_vacant(&self.board);
        self.solve_impl(bb_vacant)
    }

    /// One level of the solving search: fill the most constrained vacant cell,
    /// trying its candidates in ascending order.
    fn solve_impl(&mut self, bb_vacant: Bitboard) -> (r: bool)
        requires
            old(self).wf(),
            bb_vacant.wf(),
            bb_vacant.to_set() == vacant_cells(old(self).board@),
        ensures
            final(self).wf(),
            r ==> is_completion(final(self)@, old(self)@),
            r ==> first_solution(old(self)@) == Some(final(self)@),
            !r ==> final(self).state_eq(*old(self)) && !solvable(old(self)@),
        decreases bb_vacant.card(),
    {
        let mut bbv = bb_vacant;
        let sqo = self.pop_best_vacant_square(&mut bbv);
        if sqo.is_none() {
            proof {
                lemma_no_vacant_full(self.board@);
                assert(is_completion(self.board@, old(self).board@));
                lemma_best_vacant_from(self.board@, 0);
                match best_vacant(self.board@) {
                    Option::Some(is) => {
                        assert(vacant_cells(self.board@).contains(is));
                    },
                    Option::None => {},
                }
                assert(first_solution(self.board@) == Some(self.board@));
            }
            return true;
        }
        let sq = sqo.unwrap();
        let iv: u8 = sq.get();
        let ghost i = iv as int;
        proof {
            assert(bb_vacant.has(i));
            assert(vacant_cells(old(self).board@).contains(i));
            assert forall|j: int|
                vacant_cells(self.board@).contains(j) implies self.n_cands(i)
                <= self.n_cands(j) by {
                assert(bb_vacant.has(j));
            }
            assert forall|j: int|
                vacant_cells(self.board@).contains(j) && self.n_cands(j) == self.n_cands(
                    i,
                ) implies i <= j by {
                assert(bb_vacant.has(j));
            }
            self.lemma_pop_matches_best(iv);
        }
        let cands = self.used_masks.candidates(sq);
        let ghost b0 = self.board@;
        let ghost m0 = self.used_masks;
        proof {
            let dn0: int = if cands@.len() > 0 {
                cands@[0].spec_get() as int
            } else {
                10
            };
            assert forall|t: int|
                0 <= t < cands@.len() implies !(1 <= (#[trigger] cands@[t].spec_get())
                < dn0) by {
                if t > 0 {
                    assert(cands@[0].spec_get() < cands@[t].spec_get());
                }
            }
            self.lemma_gap_skip(i, cands@, 1, dn0);
        }
        let mut k: usize = 0;
        while k < cands.len()
            invariant
                self.wf(),
                self.board@ == b0,
                self.used_masks == m0,
                b0 == old(self).board@,
                m0 == old(self).used_masks,
                0 <= i < 81,
                b0[i] == 0,
                iv == sq.spec_get(),
                i == iv as int,
                bbv.wf(),
                bbv.to_set() == vacant_cells(b0).remove(i),
                bbv.card() < bb_vacant.card(),
                k <= cands@.len(),
                best_vacant(b0) == Some(i),
                forall|t: int| 0 <= t < cands@.len() ==> 1 <= (#[trigger] cands@[t].spec_get()) <= 9,
                forall|t1: int, t2: int|
                    0 <= t1 < t2 < cands@.len() ==> cands@[t1].spec_get() < cands@[t2].spec_get(),
                forall|t: int|
                    0 <= t < cands@.len() ==> m0.spec_legal(
                        i,
                        #[trigger] cands@[t].spec_get() as int,
                    ),
                forall|d: int|
                    1 <= d <= 9 && m0.spec_legal(i, d) ==> exists|t: int|
                        0 <= t < cands@.len() && (#[trigger] cands@[t].spec_get()) as int == d,
                forall|c: Seq<u8>|
                    #![trigger is_completion(c, b0)]
                    is_completion(c, b0) && (exists|t: int|
                        0 <= t < k && c[i] == (#[trigger] cands@[t].spec_get())) ==> false,
                first_solution_from(b0, i, 1) == first_solution_from(
                    b0,
                    i,
                    (if k < cands@.len() {
                        cands@[k as int].spec_get() as int
                    } else {
                        10int
                    }),
                ),
            decreases cands@.len() - k,
        {
            let num = cands[k];
            let nv: u8 = num.get();
            proof {
                assert(m0.spec_legal(i, nv as int));
                self.lemma_legal_equiv(i, nv);
            }
            self.put_number(sq, num);
            let ghost b1 = self.board@;
            let ghost m1 = self.used_masks;
            proof {
                assert(bbv.to_set() =~= vacant_cells(b1));
            }
            let ok = self.solve_impl(bbv);
            if ok {
                proof {
                    lemma_completion_of_update(self.board@, b0, i, nv);
                    assert(first_solution(b1) == Some(self.board@));
                    assert(first_solution_from(b0, i, nv as int) == Some(self.board@));
                    assert(first_solution(b0) == first_solution_from(b0, i, 1));
                    assert(first_solution(b0) == Some(self.board@));
                }
                return true;
            }
            self.remove_number(sq, num);
            proof {
                assert(self.board@ =~= b0);
                lemma_masks_restore(m0, m1, self.used_masks, i, nv);
                assert forall|c: Seq<u8>|
                    #![trigger is_completion(c, b0)]
                    is_completion(c, b0) && (exists|t: int|
                        0 <= t < k + 1 && c[i] == (#[trigger] cands@[t].spec_get())) implies false by {
                    let t = choose|t: int|
                        0 <= t < k + 1 && c[i] == (#[trigger] cands@[t].spec_get());
                    if t == k {
                        lemma_completion_to_update(c, b0, i, nv);
                        assert(is_completion(c, b1));
                        assert(solvable(b1));
                    }
                }
                assert(valid_grid(b1));
                lemma_first_solution_sound(b1);
                match first_solution(b1) {
                    Option::Some(c) => {
                        assert(is_completion(c, b1));
                        assert(solvable(b1));
                    },
                    Option::None => {},
                }
                assert(first_solution(b1) is None);
                assert(first_solution_from(b0, i, nv as int) == first_solution_from(
                    b0,
                    i,
                    nv as int + 1,
                ));
                let dn1: int = if k + 1 < cands@.len() {
                    cands@[k + 1].spec_get() as int
                } else {
                    10
                };
                assert forall|t: int|
                    0 <= t < cands@.len() implies !((nv as int + 1) <= (
                #[trigger] cands@[t].spec_get()) < dn1) by {
                    if t <= k {
                        if t < k {
                            assert(cands@[t].spec_get() < cands@[k as int].spec_get());
                        }
                    } else {
                        assert(k + 1 < cands@.len());
                        if k + 1 < t {
                            assert(cands@[k + 1].spec_get() < cands@[t].spec_get());
                        }
                    }
                }
                assert(nv as int + 1 <= dn1) by {
                    if k + 1 < cands@.len() {
                        assert(cands@[k as int].spec_get() < cands@[k + 1].spec_get());
                    }
                }
                self.lemma_gap_skip(i, cands@, nv as int + 1, dn1);
            }
            k = k + 1;
        }
        proof {
            if solvable(b0) {
                let c = choose|c: Seq<u8>| is_completion(c, b0);
                lemma_completion_digit_legal(c, b0, i);
                let d = c[i];
                self.lemma_legal_equiv(i, d);
                assert(m0.spec_legal(i, d as int));
                let t = choose|t: int|
                    0 <= t < cands@.len() && (#[trigger] cands@[t].spec_get()) as int == d as int;
                assert(c[i] == cands@[t].spec_get());
                assert(false);
            }
        }
        false
    }

    /// One level of the existence search: like `solve_impl`, but a successful
    /// terminal placement chain is undone too, so the position never changes.
    fn is_solvable_impl(&mut self, bb_vacant: Bitboard) -> (r: bool)
        requires
            old(self).wf(),
            bb_vacant.wf(),
            bb_vacant.to_set() == vacant_cells(old(self).board@),
        ensures
            final(self).wf(),
            final(self).state_eq(*old(self)),
            r == solvable(old(self)@),
        decreases bb_vacant.card(),
    {
        let mut bbv = bb_vacant;
        let sqo = self.pop_best_vacant_square(&mut bbv);
        if sqo.is_none() {
            proof {
                lemma_no_vacant_full(self.board@);
                assert(is_completion(self.board@, old(self).board@));
            }
            return true;
        }
        let sq = sqo.unwrap();
        let iv: u8 = sq.get();
        let ghost i = iv as int;
        proof {
            assert(bb_vacant.has(i));
            assert(vacant_cells(old(self).board@).contains(i));
        }
        let cands = self.used_masks.candidates(sq);
        let ghost b0 = self.board@;
        let ghost m0 = self.used_masks;
        let mut k: usize = 0;
        while k < cands.len()
            invariant
                self.wf(),
                self.board@ == b0,
                self.used_masks == m0,
                b0 == old(self).board@,
                m0 == old(self).used_masks,
                0 <= i < 81,
                b0[i] == 0,
                iv == sq.spec_get(),
                i == iv as int,
                bbv.wf(),
                bbv.to_set() == vacant_cells(b0).remove(i),
                bbv.card() < bb_vacant.card(),
                k <= cands@.len(),
                forall|t: int| 0 <= t < cands@.len() ==> 1 <= (#[trigger] cands@[t].spec_get()) <= 9,
                forall|t: int|
                    0 <= t < cands@.len() ==> m0.spec_legal(
                        i,
                        #[trigger] cands@[t].spec_get() as int,
                    ),
                forall|d: int|
                    1 <= d <= 9 && m0.spec_legal(i, d) ==> exists|t: int|
                        0 <= t < cands@.len() && (#[trigger] cands@[t].spec_get()) as int == d,
                forall|c: Seq<u8>|
                    #![trigger is_completion(c, b0)]
                    is_completion(c, b0) && (exists|t: int|
                        0 <= t < k && c[i] == (#[trigger] cands@[t].spec_get())) ==> false,
            decreases cands@.len() - k,
        {
            let num = cands[k];
            let nv: u8 = num.get();
            proof {
                assert(m0.spec_legal(i, nv as int));
                self.lemma_legal_equiv(i, nv);
            }
            self.put_number(sq, num);
            let ghost b1 = self.board@;
            let ghost m1 = self.used_masks;
            proof {
                assert(bbv.to_set() =~= vacant_cells(b1));
            }
            let ok = self.is_solvable_impl(bbv);
            self.remove_number(sq, num);
            proof {
                assert(self.board@ =~= b0);
                lemma_masks_restore(m0, m1, self.used_masks, i, nv);
            }
            if ok {
                proof {
                    let c = choose|c: Seq<u8>| is_completion(c, b1);
                    lemma_completion_of_update(c, b0, i, nv);
                    assert(solvable(b0));
                }
                return true;
            }
            proof {
                assert forall|c: Seq<u8>|
                    #![trigger is_completion(c, b0)]
                    is_completion(c, b0) && (exists|t: int|
                        0 <= t < k + 1 && c[i] == (#[trigger] cands@[t].spec_get())) implies false by {
                    let t = choose|t: int|
                        0 <= t < k + 1 && c[i] == (#[trigger] cands@[t].spec_get());
                    if t == k {
                        lemma_completion_to_update(c, b0, i, nv);
                        assert(is_completion(c, b1));
                        assert(solvable(b1));
                    }
                }
            }
            k = k + 1;
        }
        proof {
            if solvable(b0) {
                let c = choose|c: Seq<u8>| is_completion(c, b0);
                lemma_completion_digit_legal(c, b0, i);
                let d = c[i];
                self.lemma_legal_equiv(i, d);
                assert(m0.spec_legal(i, d as int));
                let t = choose|t: int|
                    0 <= t < cands@.len() && (#[trigger] cands@[t].spec_get()) as int == d as int;
                assert(c[i] == cands@[t].spec_get());
                assert(false);
            }
        }
        false
    }

    /// Whether the position has exactly one completion; the position itself is
    /// left unchanged.
    pub fn is_unique_solvable(&mut self) -> (r: bool)
        requires
            old(self).wf(),
        ensures
            final(self).wf(),
            final(self).state_eq(*old(self)),
            final(self)@ == old(self)@,
            r == uniquely_solvable(old(self)@),
    {
        let bb_vacant = calc_bb_vacant(&self.board);
        let cnt = self.count_solutions_impl(bb_vacant, 0);
        cnt == 1
    }

    /// One level of the counting search: counts the completions reachable from
    /// the current position on top of `count` already found, stopping as soon
    /// as the total reaches two.
    fn count_solutions_impl(&mut self, bb_vacant: Bitboard, count: u32) -> (r: u32)
        requires
            old(self).wf(),
            bb_vacant.wf(),
            bb_vacant.to_set() == vacant_cells(old(self).board@),
            count <= 1,
        ensures
            final(self).wf(),
            final(self).state_eq(*old(self)),
            count <= r <= 2,
            count == 0 ==> ((r == 0 <==> !solvable(old(self)@)) && (r == 1 <==> uniquely_solvable(
                old(self)@,
            )) && (r == 2 <==> two_completions(old(self)@))),
            count == 1 ==> ((r == 1 <==> !solvable(old(self)@)) && (r == 2 <==> solvable(
                old(self)@,
            ))),
        decreases bb_vacant.card(),
    {
        let mut bbv = bb_vacant;
        let sqo = self.pop_best_vacant_square(&mut bbv);
        if sqo.is_none() {
            proof {
                lemma_no_vacant_full(self.board@);
                lemma_full_unique(self.board@);
            }
            return count + 1;
        }
        let sq = sqo.unwrap();
        let iv: u8 = sq.get();
        let ghost i = iv as int;
        proof {
            assert(bb_vacant.has(i));
            assert(vacant_cells(old(self).board@).contains(i));
        }
        let cands = self.used_masks.candidates(sq);
        let ghost b0 = self.board@;
        let ghost m0 = self.used_masks;
        let mut cnt: u32 = count;
        let mut k: usize = 0;
        while k < cands.len()
            invariant
                self.wf(),
                self.board@ == b0,
                self.used_masks == m0,
                b0 == old(self).board@,
                m0 == old(self).used_masks,
                0 <= i < 81,
                b0[i] == 0,
                iv == sq.spec_get(),
                i == iv as int,
                bbv.wf(),
                bbv.to_set() == vacant_cells(b0).remove(i),
                bbv.card() < bb_vacant.card(),
                k <= cands@.len(),
                count <= cnt <= 1,
                forall|t: int| 0 <= t < cands@.len() ==> 1 <= (#[trigger] cands@[t].spec_get()) <= 9,
                forall|t: int|
                    0 <= t < cands@.len() ==> m0.spec_legal(
                        i,
                        #[trigger] cands@[t].spec_get() as int,
                    ),
                forall|d: int|
                    1 <= d <= 9 && m0.spec_legal(i, d) ==> exists|t: int|
                        0 <= t < cands@.len() && (#[trigger] cands@[t].spec_get()) as int == d,
                forall|t1: int, t2: int|
                    0 <= t1 < t2 < cands@.len() ==> cands@[t1].spec_get() < cands@[t2].spec_get(),
                cnt == count ==> (forall|c: Seq<u8>|
                    #![trigger is_completion(c, b0)]
                    is_completion(c, b0) && (exists|t: int|
                        0 <= t < k && c[i] == (#[trigger] cands@[t].spec_get())) ==> false),
                (count == 0 && cnt == 1) ==> (exists|c: Seq<u8>|
                    is_completion(c, b0) && (exists|t: int|
                        0 <= t < k && c[i] == (#[trigger] cands@[t].spec_get()))),
                (count == 0 && cnt == 1) ==> (forall|c1: Seq<u8>, c2: Seq<u8>|
                    #![trigger is_completion(c1, b0), is_completion(c2, b0)]
                    is_completion(c1, b0) && (exists|t: int|
                        0 <= t < k && c1[i] == (#[trigger] cands@[t].spec_get())) && is_completion(
                        c2,
                        b0,
                    ) && (exists|t: int| 0 <= t < k && c2[i] == cands@[t].spec_get()) ==> c1 == c2),
            decreases cands@.len() - k,
        {
            let num = cands[k];
            let nv: u8 = num.get();
            proof {
                assert(m0.spec_legal(i, nv as int));
                self.lemma_legal_equiv(i, nv);
            }
            self.put_number(sq, num);
            let ghost b1 = self.board@;
            let ghost m1 = self.used_masks;
            proof {
                assert(bbv.to_set() =~= vacant_cells(b1));
            }
            let cnt2 = self.count_solutions_impl(bbv, cnt);
            self.remove_number(sq, num);
            proof {
                assert(self.board@ =~= b0);
                lemma_masks_restore(m0, m1, self.used_masks, i, nv);
            }
            if cnt2 >= 2 {
                proof {
                    if cnt == 0 {
                        assert(two_completions(b1));
                        let (c1, c2) = choose|c1: Seq<u8>, c2: Seq<u8>|
                            is_completion(c1, b1) && is_completion(c2, b1) && c1 != c2;
                        lemma_completion_of_update(c1, b0, i, nv);
                        lemma_completion_of_update(c2, b0, i, nv);
                        assert(two_completions(b0));
                    } else {
                        assert(solvable(b1));
                        let c = choose|c: Seq<u8>| is_completion(c, b1);
                        lemma_completion_of_update(c, b0, i, nv);
                        assert(solvable(b0));
                        if count == 0 {
                            let cstar = choose|cs: Seq<u8>|
                                is_completion(cs, b0) && (exists|t: int|
                                    0 <= t < k && cs[i] == (#[trigger] cands@[t].spec_get()));
                            let t = choose|t: int|
                                0 <= t < k && cstar[i] == (#[trigger] cands@[t].spec_get());
                            assert(cands@[t].spec_get() < cands@[k as int].spec_get());
                            assert(cstar[i] != c[i]);
                            assert(two_completions(b0));
                        }
                    }
                }
                return 2;
            }
            proof {
                if cnt2 == cnt {
                    assert(!solvable(b1));
                    if cnt == count {
                        assert forall|c: Seq<u8>|
                            #![trigger is_completion(c, b0)]
                            is_completion(c, b0) && (exists|t: int|
                                0 <= t < k + 1 && c[i] == (#[trigger] cands@[t].spec_get()))
                            implies false by {
                            let t = choose|t: int|
                                0 <= t < k + 1 && c[i] == (#[trigger] cands@[t].spec_get());
                            if t == k {
                                lemma_completion_to_update(c, b0, i, nv);
                                assert(is_completion(c, b1));
                                assert(solvable(b1));
                            }
                        }
                    } else {
                        assert(count == 0 && cnt == 1);
                        let cstar = choose|cs: Seq<u8>|
                            is_completion(cs, b0) && (exists|ts: int|
                                0 <= ts < k && cs[i] == (#[trigger] cands@[ts].spec_get()));
                        let tstar = choose|ts: int|
                            0 <= ts < k && cstar[i] == (#[trigger] cands@[ts].spec_get());
                        assert(is_completion(cstar, b0) && (exists|t: int|
                            0 <= t < k + 1 && cstar[i] == (#[trigger] cands@[t].spec_get())));
                        assert forall|c1: Seq<u8>, c2: Seq<u8>|
                            #![trigger is_completion(c1, b0), is_completion(c2, b0)]
                            is_completion(c1, b0) && (exists|t: int|
                                0 <= t < k + 1 && c1[i] == (#[trigger] cands@[t].spec_get()))
                                && is_completion(c2, b0) && (exists|t: int|
                                0 <= t < k + 1 && c2[i] == cands@[t].spec_get()) implies c1
                            == c2 by {
                            let t1 = choose|t: int|
                                0 <= t < k + 1 && c1[i] == (#[trigger] cands@[t].spec_get());
                            let t2 = choose|t: int|
                                0 <= t < k + 1 && c2[i] == (#[trigger] cands@[t].spec_get());
                            assert(t1 < k) by {
                                if t1 == k {
                                    lemma_completion_to_update(c1, b0, i, nv);
                                    assert(solvable(b1));
                                }
                            }
                            assert(t2 < k) by {
                                if t2 == k {
                                    lemma_completion_to_update(c2, b0, i, nv);
                                    assert(solvable(b1));
                                }
                            }
                            assert(is_completion(c1, b0) && (exists|t: int|
                                0 <= t < k && c1[i] == (#[trigger] cands@[t].spec_get())));
                            assert(is_completion(c2, b0) && (exists|t: int|
                                0 <= t < k && c2[i] == (#[trigger] cands@[t].spec_get())));
                        }
                    }
                } else {
                    assert(cnt2 == 1 && cnt == 0 && count == 0);
                    assert(uniquely_solvable(b1));
                    let cu = choose|c: Seq<u8>| is_completion(c, b1);
                    lemma_completion_of_update(cu, b0, i, nv);
                    assert(is_completion(cu, b0) && cu[i] == cands@[k as int].spec_get());
                    assert(exists|c: Seq<u8>|
                        is_completion(c, b0) && (exists|t: int|
                            0 <= t < k + 1 && c[i] == (#[trigger] cands@[t].spec_get())));
                    assert forall|c1: Seq<u8>, c2: Seq<u8>|
                        #![trigger is_completion(c1, b0), is_completion(c2, b0)]
                        is_completion(c1, b0) && (exists|t: int|
                            0 <= t < k + 1 && c1[i] == (#[trigger] cands@[t].spec_get()))
                            && is_completion(c2, b0) && (exists|t: int|
                            0 <= t < k + 1 && c2[i] == cands@[t].spec_get()) implies c1 == c2 by {
                        let t1 = choose|t: int|
                            0 <= t < k + 1 && c1[i] == (#[trigger] cands@[t].spec_get());
                        let t2 = choose|t: int|
                            0 <= t < k + 1 && c2[i] == (#[trigger] cands@[t].spec_get());
                        assert(t1 == k) by {
                            if t1 < k {
                                assert(is_completion(c1, b0) && (exists|t: int|
                                    0 <= t < k && c1[i] == (#[trigger] cands@[t].spec_get())));
                            }
                        }
                        assert(t2 == k) by {
                            if t2 < k {
                                assert(is_completion(c2, b0) && (exists|t: int|
                                    0 <= t < k && c2[i] == (#[trigger] cands@[t].spec_get())));
                            }
                        }
                        lemma_completion_to_update(c1, b0, i, nv);
                        lemma_completion_to_update(c2, b0, i, nv);
                        if c1 != c2 {
                            assert(two_completions(b1));
                        }
                    }
                }
            }
            cnt = cnt2;
            k = k + 1;
        }
        proof {
            assert forall|c: Seq<u8>|
                #![trigger is_completion(c, b0)]
                is_completion(c, b0) implies (exists|t: int|
                0 <= t < cands@.len() && c[i] == (#[trigger] cands@[t].spec_get())) by {
                lemma_completion_digit_legal(c, b0, i);
                let d = c[i];
                self.lemma_legal_equiv(i, d);
                assert(m0.spec_legal(i, d as int));
                let t = choose|t: int|
                    0 <= t < cands@.len() && (#[trigger] cands@[t].spec_get()) as int == d as int;
                assert(c[i] == cands@[t].spec_get());
            }
            if cnt == count {
                if solvable(b0) {
                    let c = choose|c: Seq<u8>| is_completion(c, b0);
                    assert(false);
                }
                assert(!uniquely_solvable(b0));
                assert(!two_completions(b0)) by {
                    if two_completions(b0) {
                        let (c1, c2) = choose|c1: Seq<u8>, c2: Seq<u8>|
                            is_completion(c1, b0) && is_completion(c2, b0) && c1 != c2;
                        assert(solvable(b0));
                    }
                }
            } else {
                assert(count == 0 && cnt == 1);
                let cstar = choose|cs: Seq<u8>|
                    is_completion(cs, b0) && (exists|t: int|
                        0 <= t < cands@.len() && cs[i] == (#[trigger] cands@[t].spec_get()));
                assert(solvable(b0));
                assert(!two_completions(b0)) by {
                    if two_completions(b0) {
                        let (c1, c2) = choose|c1: Seq<u8>, c2: Seq<u8>|
                            is_completion(c1, b0) && is_completion(c2, b0) && c1 != c2;
                        assert(c1 == c2);
                    }
                }
                assert(uniquely_solvable(b0));
            }
        }
        cnt
    }

    /// Whether the position has a completion, giving up the moment the count
    /// of entered search nodes reaches `node_count_max`: the search answers
    /// exactly when its fixed-order traversal takes fewer than
    /// `node_count_max` nodes (`search_nodes`), and `None` means the budget
    /// was hit. The position is left unchanged under all three outcomes.
    pub fn is_solvable_limited(&mut self, node_count_max: u32) -> (r: Option<bool>)
        requires
            old(self).wf(),
        ensures
            final(self).wf(),
            final(self).state_eq(*old(self)),
            final(self)@ == old(self)@,
            r matches Some(s) ==> s == solvable(old(self)@),
            r is Some <==> search_nodes(old(self)@) < node_count_max,
            node_count_max == 0 ==> r is None,
    {
        let bb_vacant = calc_bb_vacant(&self.board);
        let pair = self.limited_impl(bb_vacant, node_count_max, 0);
        pair.0
    }

    /// One level of the budgeted existence search, threading the node counter
    /// through: the counter grows by one per entered node, and the moment it
    /// reaches the budget the search aborts with `None`.
    fn limited_impl(&mut self, bb_vacant: Bitboard, node_count_max: u32, node_count: u32) -> (r:
        (Option<bool>, u32))
        requires
            old(self).wf(),
            bb_vacant.wf(),
            bb_vacant.to_set() == vacant_cells(old(self).board@),
            node_count <= node_count_max,
        ensures
            final(self).wf(),
            final(self).state_eq(*old(self)),
            r.1 <= node_count_max,
            r.0 matches Some(s) ==> s == solvable(old(self)@),
            r.0 is Some ==> r.1 == node_count + search_nodes(old(self)@) && r.1 < node_count_max,
            node_count + search_nodes(old(self)@) < node_count_max ==> r.0 is Some,
            node_count_max == 0 ==> r.0 is None,
        decreases bb_vacant.card(),
    {
        proof {
            lemma_search_nodes_pos(old(self).board@);
        }
        if node_count >= node_count_max {
            return (None, node_count);
        }
        let nodes0: u32 = node_count + 1;
        if nodes0 >= node_count_max {
            return (None, nodes0);
        }
        let mut bbv = bb_vacant;
        let sqo = self.pop_best_vacant_square(&mut bbv);
        if sqo.is_none() {
            proof {
                lemma_no_vacant_full(self.board@);
                assert(is_completion(self.board@, old(self).board@));
                lemma_best_vacant_from(self.board@, 0);
                match best_vacant(self.board@) {
                    Option::Some(is) => {
                        assert(vacant_cells(self.board@).contains(is));
                    },
                    Option::None => {},
                }
                assert(search_nodes(self.board@) == 1);
            }
            return (Some(true), nodes0);
        }
        let sq = sqo.unwrap();
        let iv: u8 = sq.get();
        let ghost i = iv as int;
        proof {
            assert(bb_vacant.has(i));
            assert(vacant_cells(old(self).board@).contains(i));
            assert forall|j: int|
                vacant_cells(self.board@).contains(j) implies self.n_cands(i)
                <= self.n_cands(j) by {
                assert(bb_vacant.has(j));
            }
            assert forall|j: int|
                vacant_cells(self.board@).contains(j) && self.n_cands(j) == self.n_cands(
                    i,
                ) implies i <= j by {
                assert(bb_vacant.has(j));
            }
            self.lemma_pop_matches_best(iv);
        }
        let cands = self.used_masks.candidates(sq);
        let ghost b0 = self.board@;
        let ghost m0 = self.used_masks;
        proof {
            let dn0: int = if cands@.len() > 0 {
                cands@[0].spec_get() as int
            } else {
                10
            };
            assert forall|t: int|
                0 <= t < cands@.len() implies !(1 <= (#[trigger] cands@[t].spec_get())
                < dn0) by {
                if t > 0 {
                    assert(cands@[0].spec_get() < cands@[t].spec_get());
                }
            }
            self.lemma_gap_skip(i, cands@, 1, dn0);
            assert(search_nodes(b0) == 1 + search_nodes_from(b0, i, 1));
        }
        let mut nodes: u32 = nodes0;
        let mut k: usize = 0;
        while k < cands.len()
            invariant
                self.wf(),
                self.board@ == b0,
                self.used_masks == m0,
                b0 == old(self).board@,
                m0 == old(self).used_masks,
                0 <= i < 81,
                b0[i] == 0,
                iv == sq.spec_get(),
                i == iv as int,
                bbv.wf(),
                bbv.to_set() == vacant_cells(b0).remove(i),
                bbv.card() < bb_vacant.card(),
                k <= cands@.len(),
                node_count < nodes,
                nodes < node_count_max,
                best_vacant(b0) == Some(i),
                search_nodes(b0) == 1 + search_nodes_from(b0, i, 1),
                search_nodes_from(b0, i, 1) == (nodes - node_count - 1) + search_nodes_from(
                    b0,
                    i,
                    (if k < cands@.len() {
                        cands@[k as int].spec_get() as int
                    } else {
                        10int
                    }),
                ),
                forall|t: int| 0 <= t < cands@.len() ==> 1 <= (#[trigger] cands@[t].spec_get()) <= 9,
                forall|t1: int, t2: int|
                    0 <= t1 < t2 < cands@.len() ==> cands@[t1].spec_get() < cands@[t2].spec_get(),
                forall|t: int|
                    0 <= t < cands@.len() ==> m0.spec_legal(
                        i,
                        #[trigger] cands@[t].spec_get() as int,
                    ),
                forall|d: int|
                    1 <= d <= 9 && m0.spec_legal(i, d) ==> exists|t: int|
                        0 <= t < cands@.len() && (#[trigger] cands@[t].spec_get()) as int == d,
                forall|c: Seq<u8>|
                    #![trigger is_completion(c, b0)]
                    is_completion(c, b0) && (exists|t: int|
                        0 <= t < k && c[i] == (#[trigger] cands@[t].spec_get())) ==> false,
            decreases cands@.len() - k,
        {
            let num = cands[k];
            let nv: u8 = num.get();
            proof {
                assert(m0.spec_legal(i, nv as int));
                self.lemma_legal_equiv(i, nv);
            }
            self.put_number(sq, num);
            let ghost b1 = self.board@;
            let ghost m1 = self.used_masks;
            proof {
                assert(bbv.to_set() =~= vacant_cells(b1));
            }
            let pair = self.limited_impl(bbv, node_count_max, nodes);
            self.remove_number(sq, num);
            proof {
                assert(self.board@ =~= b0);
                lemma_masks_restore(m0, m1, self.used_masks, i, nv);
            }
            let sub = pair.0;
            let ghost nodes_before = nodes;
            nodes = pair.1;
            match sub {
                Option::Some(true) => {
                    proof {
                        let c = choose|c: Seq<u8>| is_completion(c, b1);
                        lemma_completion_of_update(c, b0, i, nv);
                        assert(solvable(b0));
                        assert(solvable(b1));
                        assert(search_nodes_from(b0, i, nv as int) == search_nodes(b1));
                        assert(nodes == node_count + search_nodes(b0));
                    }
                    return (Some(true), nodes);
                },
                Option::None => {
                    proof {
                        lemma_search_nodes_from_lb(b0, i, nv as int);
                        assert(node_count + search_nodes(b0) >= nodes_before + search_nodes(b1));
                    }
                    return (None, nodes);
                },
                Option::Some(false) => {
                    proof {
                        assert(!solvable(b1));
                        assert forall|c: Seq<u8>|
                            #![trigger is_completion(c, b0)]
                            is_completion(c, b0) && (exists|t: int|
                                0 <= t < k + 1 && c[i] == (#[trigger] cands@[t].spec_get()))
                            implies false by {
                            let t = choose|t: int|
                                0 <= t < k + 1 && c[i] == (#[trigger] cands@[t].spec_get());
                            if t == k {
                                lemma_completion_to_update(c, b0, i, nv);
                                assert(is_completion(c, b1));
                                assert(solvable(b1));
                            }
                        }
                        assert(search_nodes_from(b0, i, nv as int) == search_nodes(b1)
                            + search_nodes_from(b0, i, nv as int + 1));
                        let dn1: int = if k + 1 < cands@.len() {
                            cands@[k + 1].spec_get() as int
                        } else {
                            10
                        };
                        assert forall|t: int|
                            0 <= t < cands@.len() implies !((nv as int + 1) <= (
                        #[trigger] cands@[t].spec_get()) < dn1) by {
                            if t <= k {
                                if t < k {
                                    assert(cands@[t].spec_get() < cands@[k as int].spec_get());
                                }
                            } else {
                                assert(k + 1 < cands@.len());
                                if k + 1 < t {
                                    assert(cands@[k + 1].spec_get() < cands@[t].spec_get());
                                }
                            }
                        }
                        assert(nv as int + 1 <= dn1) by {
                            if k + 1 < cands@.len() {
                                assert(cands@[k as int].spec_get() < cands@[k + 1].spec_get());
                            }
                        }
                        self.lemma_gap_skip(i, cands@, nv as int + 1, dn1);
                        lemma_search_nodes_pos(b1);
                    }
                },
            }
            k = k + 1;
        }
        proof {
            if solvable(b0) {
                let c = choose|c: Seq<u8>| is_completion(c, b0);
                lemma_completion_digit_legal(c, b0, i);
                let d = c[i];
                self.lemma_legal_equiv(i, d);
                assert(m0.spec_legal(i, d as int));
                let t = choose|t: int|
                    0 <= t < cands@.len() && (#[trigger] cands@[t].spec_get()) as int == d as int;
                assert(c[i] == cands@[t].spec_get());
                assert(false);
            }
            assert(search_nodes_from(b0, i, 10) == 0);
            assert(nodes == node_count + search_nodes(b0));
        }
        (Some(false), nodes)
    }

    /// Scans the vacant set for the cell with the fewest candidates, ties
    /// broken by smallest cell index, and removes it from the set; `None` if
    /// the set is empty.
    fn pop_best_vacant_square(&self, bb_vacant: &mut Bitboard) -> (r: Option<Square>)
        requires
            self.wf(),
            old(bb_vacant).wf(),
        ensures
            final(bb_vacant).wf(),
            r is None ==> *final(bb_vacant) == *old(bb_vacant) && old(bb_vacant).to_set()
                == Set::<int>::empty(),
            r matches Some(sq) ==> {
                &&& old(bb_vacant).has(sq.spec_get() as int)
                &&& final(bb_vacant).to_set() == old(bb_vacant).to_set().remove(
                    sq.spec_get() as int,
                )
                &&& final(bb_vacant).card() == old(bb_vacant).card() - 1
                &&& old(bb_vacant).card() >= 1
                &&& forall|j: int|
                    old(bb_vacant).has(j) ==> self.n_cands(sq.spec_get() as int) <= self.n_cands(j)
                &&& forall|j: int|
                    old(bb_vacant).has(j) && self.n_cands(j) == self.n_cands(sq.spec_get() as int)
                        ==> sq.spec_get() <= j
            },
    {
        let v = bb_vacant.to_vec();
        if v.len() == 0 {
            proof {
                bb_vacant.lemma_finite();
                bb_vacant.to_set().lemma_len0_is_empty();
            }
            return None;
        }
        let mut best: Square = v[0];
        let mut best_cnt: u32 = self.used_masks.candidate_count(v[0]);
        let mut k: usize = 1;
        while k < v.len()
            invariant
                self.wf(),
                1 <= k <= v@.len(),
                bb_vacant.wf(),
                *bb_vacant == *old(bb_vacant),
                v@.len() == bb_vacant.card(),
                forall|t: int| 0 <= t < v@.len() ==> bb_vacant.has(#[trigger] v@[t].spec_get() as int),
                forall|t1: int, t2: int|
                    0 <= t1 < t2 < v@.len() ==> v@[t1].spec_get() < v@[t2].spec_get(),
                forall|j: int|
                    bb_vacant.has(j) ==> exists|t: int|
                        0 <= t < v@.len() && (#[trigger] v@[t].spec_get()) as int == j,
                exists|t: int| 0 <= t < k && v@[t] == best,
                bb_vacant.has(best.spec_get() as int),
                best_cnt == self.n_cands(best.spec_get() as int),
                forall|t: int|
                    0 <= t < k ==> best_cnt <= self.n_cands(#[trigger] v@[t].spec_get() as int),
                forall|t: int|
                    0 <= t < k && self.n_cands(#[trigger] v@[t].spec_get() as int) == best_cnt
                        ==> best.spec_get() <= v@[t].spec_get(),
            decreases v@.len() - k,
        {
            let cnt = self.used_masks.candidate_count(v[k]);
            if cnt < best_cnt {
                best = v[k];
                best_cnt = cnt;
            } else {
                proof {
                    if cnt == best_cnt {
                        let tb = choose|t: int| 0 <= t < k && v@[t] == best;
                        assert(v@[tb].spec_get() < v@[k as int].spec_get());
                    }
                }
            }
            k = k + 1;
        }
        proof {
            assert forall|j: int| old(bb_vacant).has(j) implies best_cnt <= self.n_cands(j) by {
                let t = choose|t: int|
                    0 <= t < v@.len() && (#[trigger] v@[t].spec_get()) as int == j;
            }
            assert forall|j: int|
                old(bb_vacant).has(j) && self.n_cands(j) == best_cnt implies best.spec_get()
                <= j by {
                let t = choose|t: int|
                    0 <= t < v@.len() && (#[trigger] v@[t].spec_get()) as int == j;
            }
            bb_vacant.lemma_finite();
            vstd::set::axiom_set_remove_len(bb_vacant.to_set(), best.spec_get() as int);
        }
        bb_vacant.remove(best);
        Some(best)
    }

    /// How many digits are legal at cell `i` per the tracker.
    pub closed spec fn n_cands(self, i: int) -> nat {
        self.used_masks.n_cands(i)
    }

    /// Generates a puzzle with exactly one completion together with its solved
    /// grid, by blanking cells of a random solved grid in random order while
    /// more than `hint_min` filled cells remain, keeping only removals that
    /// preserve uniqueness.
    pub fn generate_unique(hint_min: u32) -> (r: (Sudoku, Sudoku))
        ensures
            r.0.wf(),
            r.1.wf(),
            full_grid(r.1@),
            is_completion(r.1@, r.0@),
            uniquely_solvable(r.0@),
            filled_count(r.0@) >= (if hint_min < 81 {
                hint_min as int
            } else {
                81int
            }),
            filled_count(r.0@) > hint_min ==> (forall|i: int|
                0 <= i < 81 && r.0@[i] != 0 ==> two_completions(#[trigger] r.0@.update(i, 0u8))),
            hint_min >= 81 ==> r.0@ == r.1@,
    {
        let mut sudoku = Self::generate_solved();
        let solution = sudoku.clone();
        proof {
            lemma_full_unique(sudoku@);
            assert(is_completion(solution@, sudoku@));
            assert(vacant_cells(sudoku@) =~= Set::<int>::empty());
            assert(filled_count(sudoku@) == 81);
        }
        let mut hint: u32 = 81;
        let mut sqs = Square::all();
        let ghost all0 = sqs@;
        shuffle_squares(&mut sqs);
        proof {
            assert forall|c: int| 0 <= c < 81 implies #[trigger] appears_before(sqs@, 81int, c) by {
                let x = all0[c];
                assert(all0.contains(x));
                all0.to_multiset_ensures();
                sqs@.to_multiset_ensures();
                assert(sqs@.to_multiset().count(x) > 0);
                assert(sqs@.contains(x));
                let tt = choose|tt: int| 0 <= tt < sqs@.len() && sqs@[tt] == x;
                assert((sqs@[tt].spec_get()) as int == c);
            }
        }
        let mut k: usize = 0;
        while k < sqs.len() && hint > hint_min
            invariant
                k <= sqs@.len(),
                sqs@.len() == 81,
                sudoku.wf(),
                solution.wf(),
                uniquely_solvable(sudoku@),
                is_completion(solution@, sudoku@),
                full_grid(solution@),
                hint_min >= 81 ==> sudoku@ == solution@,
                hint <= 81,
                hint as int == filled_count(sudoku@),
                hint >= hint_min || hint == 81,
                forall|c: int| 0 <= c < 81 ==> #[trigger] appears_before(sqs@, 81int, c),
                forall|ii: int|
                    0 <= ii < 81 && sudoku@[ii] != 0 && appears_before(sqs@, k as int, ii)
                        ==> #[trigger] removable(sudoku@, ii),
            decreases sqs@.len() - k,
        {
            let sq = sqs[k];
            let raw = sudoku.board.get_raw(sq);
            let ghost b_head = sudoku@;
            if raw != 0 {
                let iv: u8 = sq.get();
                let ghost i = iv as int;
                let num = Number::new_unchecked(raw);
                let ghost b = sudoku@;
                sudoku.remove_number(sq, num);
                let ghost b2 = sudoku@;
                let ghost m2 = sudoku.used_masks;
                let cands = sudoku.used_masks.candidates(sq);
                let mut found = false;
                let mut t: usize = 0;
                while t < cands.len() && !found
                    invariant
                        sudoku.wf(),
                        sudoku@ == b2,
                        sudoku.used_masks == m2,
                        0 <= i < 81,
                        i == iv as int,
                        iv == sq.spec_get(),
                        1 <= raw <= 9,
                        raw == num.spec_get(),
                        valid_grid(b),
                        b[i] == raw,
                        b2 == b.update(i, 0u8),
                        legal_at(b2, i, num.spec_get()),
                        t <= cands@.len(),
                        forall|tt: int|
                            0 <= tt < cands@.len() ==> 1 <= (#[trigger] cands@[tt].spec_get())
                                <= 9,
                        forall|tt: int|
                            0 <= tt < cands@.len() ==> m2.spec_legal(
                                i,
                                #[trigger] cands@[tt].spec_get() as int,
                            ),
                        forall|d: int|
                            1 <= d <= 9 && m2.spec_legal(i, d) ==> exists|tt: int|
                                0 <= tt < cands@.len() && (#[trigger] cands@[tt].spec_get()) as int
                                    == d,
                        !found ==> (forall|tt: int|
                            0 <= tt < t && (#[trigger] cands@[tt].spec_get()) != raw
                                ==> !solvable(b2.update(i, cands@[tt].spec_get()))),
                        found ==> (exists|d: u8|
                            1 <= d <= 9 && d != raw && solvable(#[trigger] b2.update(i, d))),
                    decreases cands@.len() - t,
                {
                    let cand = cands[t];
                    let cv: u8 = cand.get();
                    if cv != raw {
                        proof {
                            assert(m2.spec_legal(i, cv as int));
                            sudoku.lemma_legal_equiv(i, cv);
                        }
                        sudoku.put_number(sq, cand);
                        let ghost m3 = sudoku.used_masks;
                        found = sudoku.is_solvable();
                        sudoku.remove_number(sq, cand);
                        proof {
                            assert(sudoku@ =~= b2);
                            lemma_masks_restore(m2, m3, sudoku.used_masks, i, cv);
                            assert(found == solvable(b2.update(i, cv)));
                        }
                    }
                    t = t + 1;
                }
                if found {
                    sudoku.put_number(sq, num);
                    proof {
                        assert(sudoku@ =~= b);
                        assert(vacant_cells(sudoku@) =~= vacant_cells(b));
                        let d = choose|d: u8|
                            1 <= d <= 9 && d != raw && solvable(#[trigger] b2.update(i, d));
                        let c = choose|c: Seq<u8>| is_completion(c, b2.update(i, d));
                        lemma_completion_of_update(c, b2, i, d);
                        assert(is_completion(c, sudoku@.update(i, 0u8)));
                        assert(c[i] == d && d != sudoku@[i]);
                        assert(removable(sudoku@, i));
                        assert forall|ii: int|
                            0 <= ii < 81 && sudoku@[ii] != 0 && appears_before(
                                sqs@,
                                k + 1,
                                ii,
                            ) implies #[trigger] removable(sudoku@, ii) by {
                            if ii != i {
                                let tt = choose|tt: int|
                                    0 <= tt < k + 1 && (#[trigger] sqs@[tt].spec_get()) as int
                                        == ii;
                                assert(tt < k ==> appears_before(sqs@, k as int, ii));
                                assert(tt == k ==> ii == i);
                            }
                        }
                    }
                } else {
                    proof {
                        lemma_vacant_finite(b);
                        assert(!vacant_cells(b).contains(i));
                        assert(vacant_cells(b2) =~= vacant_cells(b).insert(i));
                        vstd::set::axiom_set_insert_len(vacant_cells(b), i);
                        assert(filled_count(b2) == filled_count(b) - 1);
                        assert forall|d: u8|
                            1 <= d <= 9 && d != raw && legal_at(b2, i, d) implies !solvable(
                            b2.update(i, d),
                        ) by {
                            sudoku.lemma_legal_equiv(i, d);
                            assert(m2.spec_legal(i, d as int));
                            let tt = choose|tt: int|
                                0 <= tt < cands@.len() && (#[trigger] cands@[tt].spec_get()) as int
                                    == d as int;
                            assert(cands@[tt].spec_get() == d);
                        }
                        lemma_blank_keeps_unique(b, i, raw);
                        assert(grid_extends(solution@, b2)) by {
                            assert(forall|j: int|
                                0 <= j < 81 && b2[j] != 0 ==> solution@[j] == b2[j]);
                        }
                        assert(is_completion(solution@, b2));
                        assert forall|ii: int|
                            0 <= ii < 81 && sudoku@[ii] != 0 && appears_before(
                                sqs@,
                                k + 1,
                                ii,
                            ) implies #[trigger] removable(sudoku@, ii) by {
                            assert(ii != i);
                            assert(b[ii] == b2[ii] && b2[ii] != 0);
                            assert(appears_before(sqs@, k as int, ii)) by {
                                let tt = choose|tt: int|
                                    0 <= tt < k + 1 && (#[trigger] sqs@[tt].spec_get()) as int
                                        == ii;
                                assert(tt != k);
                            }
                            assert(removable(b, ii));
                            let c = choose|c: Seq<u8>|
                                is_completion(c, b.update(ii, 0u8)) && c[ii] != b[ii];
                            assert(is_completion(c, b2.update(ii, 0u8))) by {
                                assert(grid_extends(c, b2.update(ii, 0u8))) by {
                                    assert(forall|j: int|
                                        0 <= j < 81 && b2.update(ii, 0u8)[j] != 0 ==> b.update(
                                            ii,
                                            0u8,
                                        )[j] == b2.update(ii, 0u8)[j]);
                                }
                            }
                            assert(c[ii] != b2[ii]);
                        }
                    }
                    hint = hint - 1;
                }
            } else {
                proof {
                    assert(sudoku@[sq.spec_get() as int] == 0);
                    assert forall|ii: int|
                        0 <= ii < 81 && sudoku@[ii] != 0 && appears_before(
                            sqs@,
                            k + 1,
                            ii,
                        ) implies #[trigger] removable(sudoku@, ii) by {
                        assert(appears_before(sqs@, k as int, ii)) by {
                            let tt = choose|tt: int|
                                0 <= tt < k + 1 && (#[trigger] sqs@[tt].spec_get()) as int == ii;
                            if tt == k {
                                assert(sqs@[k as int] == sq);
                                assert(sudoku@[ii] == 0);
                            }
                        }
                    }
                }
            }
            k = k + 1;
        }
        proof {
            if filled_count(sudoku@) > hint_min {
                assert(k == 81);
                assert forall|i: int|
                    0 <= i < 81 && sudoku@[i] != 0 implies two_completions(
                    #[trigger] sudoku@.update(i, 0u8),
                ) by {
                    assert(appears_before(sqs@, 81int, i));
                    assert(removable(sudoku@, i));
                    let c = choose|c: Seq<u8>|
                        is_completion(c, sudoku@.update(i, 0u8)) && c[i] != sudoku@[i];
                    assert(is_completion(solution@, sudoku@.update(i, 0u8))) by {
                        assert(grid_extends(solution@, sudoku@.update(i, 0u8)));
                    }
                    assert(solution@[i] == sudoku@[i]);
                    assert(c != solution@);
                }
            }
        }
        (sudoku, solution)
    }

    /// Builds a random fully solved position: random legal placements, each
    /// confirmed by a budgeted solvability check, restarting from an empty
    /// grid whenever the budget runs out.
    fn generate_solved() -> (r: Sudoku)
        ensures
            r.wf(),
            full_grid(r@),
    {
        let mut attempts: u32 = 0;
        while attempts < 100000
            invariant
                true,
            decreases 100000 - attempts,
        {
            let attempt = Self::try_generate_solved();
            match attempt {
                Option::Some(s) => {
                    return s;
                },
                Option::None => {},
            }
            attempts = attempts + 1;
        }
        let mut fallback = Sudoku::new(Board::empty());
        proof {
            crate::model::lemma_empty_solvable();
        }
        let ok = fallback.solve();
        proof {
            assert(ok);
        }
        fallback
    }

    /// One attempt to build a random solved position; `None` when the node
    /// budget of a solvability check ran out and the attempt is abandoned.
    fn try_generate_solved() -> (r: Option<Sudoku>)
        ensures
            r matches Some(s) ==> s.wf() && full_grid(s@),
    {
        let mut sudoku = Sudoku::new(Board::empty());
        let mut bb_vacant = Bitboard::full();
        let mut fuel: u32 = 100000;
        proof {
            assert forall|j: int|
                bb_vacant.to_set().contains(j) == vacant_cells(sudoku@).contains(j) by {}
            assert(bb_vacant.to_set() =~= vacant_cells(sudoku@));
        }
        while !bb_vacant.is_zero()
            invariant
                sudoku.wf(),
                bb_vacant.wf(),
                bb_vacant.to_set() == vacant_cells(sudoku@),
                solvable(sudoku@) || sudoku@ == empty_grid(),
            decreases fuel,
        {
            if fuel == 0 {
                return None;
            }
            fuel = fuel - 1;
            let vs = bb_vacant.to_vec();
            let sq = choose_one(&vs);
            let iv: u8 = sq.get();
            let ghost i = iv as int;
            proof {
                let kx = choose|kx: int| 0 <= kx < vs@.len() && vs@[kx] == sq;
                assert(bb_vacant.has(vs@[kx].spec_get() as int));
                assert(vacant_cells(sudoku@).contains(i));
            }
            let cands = sudoku.used_masks.candidates(sq);
            proof {
                if sudoku@ == empty_grid() {
                    assert(legal_at(sudoku@, i, 1u8)) by {
                        assert(!digit_in_row(sudoku@, row_of(i), 1u8)) by {
                            if digit_in_row(sudoku@, row_of(i), 1u8) {
                                let j = choose|j: int|
                                    0 <= j < 81 && row_of(j) == row_of(i) && sudoku@[j] == 1u8;
                            }
                        }
                        assert(!digit_in_col(sudoku@, col_of(i), 1u8)) by {
                            if digit_in_col(sudoku@, col_of(i), 1u8) {
                                let j = choose|j: int|
                                    0 <= j < 81 && col_of(j) == col_of(i) && sudoku@[j] == 1u8;
                            }
                        }
                        assert(!digit_in_block(sudoku@, block_of(i), 1u8)) by {
                            if digit_in_block(sudoku@, block_of(i), 1u8) {
                                let j = choose|j: int|
                                    0 <= j < 81 && block_of(j) == block_of(i) && sudoku@[j] == 1u8;
                            }
                        }
                    }
                    sudoku.lemma_legal_equiv(i, 1u8);
                    assert(sudoku.used_masks.spec_legal(i, 1int));
                } else {
                    let c = choose|c: Seq<u8>| is_completion(c, sudoku@);
                    lemma_completion_digit_legal(c, sudoku@, i);
                    sudoku.lemma_legal_equiv(i, c[i]);
                    assert(sudoku.used_masks.spec_legal(i, c[i] as int));
                }
                assert(cands@.len() > 0);
            }
            let num = choose_one(&cands);
            let nv: u8 = num.get();
            proof {
                let kx = choose|kx: int| 0 <= kx < cands@.len() && cands@[kx] == num;
                assert(sudoku.used_masks.spec_legal(i, cands@[kx].spec_get() as int));
                sudoku.lemma_legal_equiv(i, nv);
            }
            let ghost b_pre = sudoku@;
            sudoku.put_number(sq, num);
            bb_vacant.remove(sq);
            proof {
                assert(bb_vacant.to_set() =~= vacant_cells(sudoku@));
            }
            let limited = sudoku.is_solvable_limited(1000000);
            match limited {
                Option::None => {
                    return None;
                },
                Option::Some(ok) => {
                    if !ok {
                        proof {
                            assert(!solvable(sudoku@));
                        }
                        sudoku.remove_number(sq, num);
                        bb_vacant.add(sq);
                        proof {
                            assert(sudoku@ =~= b_pre);
                            assert(bb_vacant.to_set() =~= vacant_cells(sudoku@));
                        }
                    }
                },
            }
        }
        proof {
            lemma_no_vacant_full(sudoku@);
        }
        Some(sudoku)
    }
}

/// Relies on rand's `SliceRandom::shuffle` with the thread-local generator:
/// afterwards the vector holds the same cells, in some order.
#[verifier::external_body]
fn shuffle_squares(v: &mut Vec<Square>)
    ensures
        final(v)@.to_multiset() == old(v)@.to_multiset(),
        final(v)@.len() == old(v)@.len(),
{
    v.shuffle(&mut rand::thread_rng());
}

/// Relies on rand's `SliceRandom::choose` with the thread-local generator:
/// returns one element of the nonempty slice.
#[verifier::external_body]
fn choose_one<T: Copy>(v: &Vec<T>) -> (r: T)
    requires
        v@.len() > 0,
    ensures
        v@.contains(r),
{
    *v.as_slice().choose(&mut rand::thread_rng()).unwrap()
}

/// Cell `ii` appears among the first `k` entries of the visiting order.
spec fn appears_before(sqs: Seq<Square>, k: int, ii: int) -> bool {
    exists|t: int| 0 <= t < k && (#[trigger] sqs[t].spec_get()) as int == ii
}

/// Blanking cell `ii` of `b` admits a completion that differs from `b` there:
/// keeping the cell was forced, so blanking it now would lose uniqueness.
spec fn removable(b: Seq<u8>, ii: int) -> bool {
    exists|c: Seq<u8>| is_completion(c, b.update(ii, 0u8)) && c[ii] != b[ii]
}

/// Removing the digit at one cell of a uniquely solvable grid keeps it
/// uniquely solvable exactly when no other digit at that cell leads to any
/// completion: an alternative completion of the blanked grid could differ from
/// the unique one only at that cell.
proof fn lemma_blank_keeps_unique(b: Seq<u8>, i: int, n: u8)
    requires
        valid_grid(b),
        uniquely_solvable(b),
        0 <= i < 81,
        b[i] == n,
        1 <= n <= 9,
        forall|d: u8|
            1 <= d <= 9 && d != n && legal_at(b.update(i, 0u8), i, d) ==> !solvable(
                b.update(i, 0u8).update(i, d),
            ),
    ensures
        uniquely_solvable(b.update(i, 0u8)),
{
    let b2 = b.update(i, 0u8);
    let c0 = choose|c: Seq<u8>| is_completion(c, b);
    assert(is_completion(c0, b2)) by {
        assert(forall|j: int| 0 <= j < 81 && b2[j] != 0 ==> c0[j] == b2[j]);
    }
    assert forall|c: Seq<u8>| is_completion(c, b2) implies c == c0 by {
        lemma_completion_digit_legal(c, b2, i);
        let d = c[i];
        if d == n {
            assert(grid_extends(c, b)) by {
                assert(forall|j: int| 0 <= j < 81 && j != i && b[j] != 0 ==> c[j] == b[j]);
            }
            assert(is_completion(c, b));
            if c != c0 {
                assert(two_completions(b));
            }
        } else {
            lemma_completion_to_update(c, b2, i, d);
            assert(solvable(b2.update(i, d)));
        }
    }
    assert(!two_completions(b2)) by {
        if two_completions(b2) {
            let (c1, c2) = choose|c1: Seq<u8>, c2: Seq<u8>|
                is_completion(c1, b2) && is_completion(c2, b2) && c1 != c2;
            assert(c1 == c0 && c2 == c0);
        }
    }
}

/// The vacant-cell bitset of a grid.
fn calc_bb_vacant(board: &Board) -> (r: Bitboard)
    requires
        board.inv(),
    ensures
        r.wf(),
        r.to_set() == vacant_cells(board@),
{
    let mut bb = Bitboard::empty();
    let mut i: u8 = 0;
    proof {
        assert forall|j: int| !bb.has(j) by {
            assert(!bb.to_set().contains(j));
        }
    }
    while i < 81
        invariant
            board.inv(),
            i <= 81,
            bb.wf(),
            forall|j: int| bb.has(j) <==> (0 <= j < i && board@[j] == 0),
        decreases 81 - i,
    {
        let sq = Square::new_unchecked(i);
        let ghost bb0 = bb;
        if board.get_raw(sq) == 0 {
            bb.add(sq);
            proof {
                assert forall|j: int| bb.has(j) <==> (0 <= j < i + 1 && board@[j] == 0) by {
                    assert(bb.to_set().contains(j) == bb0.to_set().insert(i as int).contains(j));
                    assert(bb0.to_set().contains(j) == bb0.has(j));
                    assert(bb.to_set().contains(j) == bb.has(j));
                }
            }
        } else {
            proof {
                assert forall|j: int| bb.has(j) <==> (0 <= j < i + 1 && board@[j] == 0) by {}
            }
        }
        i = i + 1;
    }
    proof {
        assert forall|j: int| bb.to_set().contains(j) == vacant_cells(board@).contains(j) by {
            assert(bb.to_set().contains(j) == bb.has(j));
        }
        assert(bb.to_set() =~= vacant_cells(board@));
    }
    bb
}

/// A grid with no vacant cell is full, hence its own completion.
proof fn lemma_no_vacant_full(b: Seq<u8>)
    requires
        valid_grid(b),
        vacant_cells(b) == Set::<int>::empty(),
    ensures
        full_grid(b),
        is_completion(b, b),
{
    assert forall|i: int| 0 <= i < 81 implies b[i] != 0 by {
        if b[i] == 0 {
            assert(vacant_cells(b).contains(i));
        }
    }
}

/// Marking a digit used and then unused again restores all three masks
/// exactly, provided the digit was legal at the cell to begin with.
proof fn lemma_masks_restore(m0: UsedMasks, m1: UsedMasks, m2: UsedMasks, i: int, n: u8)
    requires
        0 <= i < 81,
        1 <= n <= 9,
        m0.wf(),
        m0.spec_legal(i, n as int),
        m1.col_mask.m == m0.col_mask.m & !(1u128 << ((9 * col_of(i) + n - 1) as u128)),
        m1.row_mask.m == m0.row_mask.m & !(1u128 << ((9 * row_of(i) + n - 1) as u128)),
        m1.block_mask.m == m0.block_mask.m & !(1u128 << ((9 * block_of(i) + n - 1) as u128)),
        m2.col_mask.m == m1.col_mask.m | (1u128 << ((9 * col_of(i) + n - 1) as u128)),
        m2.row_mask.m == m1.row_mask.m | (1u128 << ((9 * row_of(i) + n - 1) as u128)),
        m2.block_mask.m == m1.block_mask.m | (1u128 << ((9 * block_of(i) + n - 1) as u128)),
    ensures
        m2 == m0,
{
    lemma_cell_decompose(i);
    lemma_clear_then_set(m0.col_mask.m, (9 * col_of(i) + n - 1) as u128);
    lemma_clear_then_set(m0.row_mask.m, (9 * row_of(i) + n - 1) as u128);
    lemma_clear_then_set(m0.block_mask.m, (9 * block_of(i) + n - 1) as u128);
    assert(m2.col_mask =~= m0.col_mask);
    assert(m2.row_mask =~= m0.row_mask);
    assert(m2.block_mask =~= m0.block_mask);
    assert(m2 =~= m0);
}

/// Digit `d` appears in row `r` among the first `n` cells.
spec fn digit_in_row_upto(b: Seq<u8>, r: int, d: u8, n: int) -> bool {
    exists|i: int| 0 <= i < n && i < 81 && row_of(i) == r && b[i] == d
}

/// Digit `d` appears in column `c` among the first `n` cells.
spec fn digit_in_col_upto(b: Seq<u8>, c: int, d: u8, n: int) -> bool {
    exists|i: int| 0 <= i < n && i < 81 && col_of(i) == c && b[i] == d
}

/// Digit `d` appears in block `bl` among the first `n` cells.
spec fn digit_in_block_upto(b: Seq<u8>, bl: int, d: u8, n: int) -> bool {
    exists|i: int| 0 <= i < n && i < 81 && block_of(i) == bl && b[i] == d
}

proof fn lemma_upto_step_col(b: Seq<u8>, g: int, d: u8, i: int)
    requires
        0 <= i < 81,
    ensures
        digit_in_col_upto(b, g, d, i + 1) == (digit_in_col_upto(b, g, d, i) || (col_of(i) == g
            && b[i] == d)),
{
    if digit_in_col_upto(b, g, d, i + 1) {
        let j = choose|j: int| 0 <= j < i + 1 && j < 81 && col_of(j) == g && b[j] == d;
        if j < i {
            assert(digit_in_col_upto(b, g, d, i));
        }
    }
}

proof fn lemma_upto_step_row(b: Seq<u8>, g: int, d: u8, i: int)
    requires
        0 <= i < 81,
    ensures
        digit_in_row_upto(b, g, d, i + 1) == (digit_in_row_upto(b, g, d, i) || (row_of(i) == g
            && b[i] == d)),
{
    if digit_in_row_upto(b, g, d, i + 1) {
        let j = choose|j: int| 0 <= j < i + 1 && j < 81 && row_of(j) == g && b[j] == d;
        if j < i {
            assert(digit_in_row_upto(b, g, d, i));
        }
    }
}

proof fn lemma_upto_step_block(b: Seq<u8>, g: int, d: u8, i: int)
    requires
        0 <= i < 81,
    ensures
        digit_in_block_upto(b, g, d, i + 1) == (digit_in_block_upto(b, g, d, i) || (block_of(i)
            == g && b[i] == d)),
{
    if digit_in_block_upto(b, g, d, i + 1) {
        let j = choose|j: int| 0 <= j < i + 1 && j < 81 && block_of(j) == g && b[j] == d;
        if j < i {
            assert(digit_in_block_upto(b, g, d, i));
        }
    }
}

/// Writing `n` at vacant cell `i` changes digit occurrence in each column only
/// at `(col_of(i), n)`.
proof fn lemma_place_digit_col(b: Seq<u8>, i: int, n: u8, g: int, d: u8)
    requires
        wf_grid_req(b),
        0 <= i < 81,
        b[i] == 0,
        1 <= n <= 9,
        1 <= d <= 9,
    ensures
        digit_in_col(b.update(i, n), g, d) == (digit_in_col(b, g, d) || (g == col_of(i) && d
            == n)),
{
    let b1 = b.update(i, n);
    if g == col_of(i) && d == n {
        assert(digit_in_col(b1, g, d));
    } else {
        if digit_in_col(b1, g, d) {
            let j = choose|j: int| 0 <= j < 81 && col_of(j) == g && b1[j] == d;
            if j == i {
                assert(d == n && g == col_of(i));
            } else {
                assert(b[j] == d);
            }
            assert(digit_in_col(b, g, d));
        }
        if digit_in_col(b, g, d) {
            let j = choose|j: int| 0 <= j < 81 && col_of(j) == g && b[j] == d;
            assert(j != i);
            assert(b1[j] == d);
            assert(digit_in_col(b1, g, d));
        }
    }
}

proof fn lemma_place_digit_row(b: Seq<u8>, i: int, n: u8, g: int, d: u8)
    requires
        wf_grid_req(b),
        0 <= i < 81,
        b[i] == 0,
        1 <= n <= 9,
        1 <= d <= 9,
    ensures
        digit_in_row(b.update(i, n), g, d) == (digit_in_row(b, g, d) || (g == row_of(i) && d
            == n)),
{
    let b1 = b.update(i, n);
    if g == row_of(i) && d == n {
        assert(digit_in_row(b1, g, d));
    } else {
        if digit_in_row(b1, g, d) {
            let j = choose|j: int| 0 <= j < 81 && row_of(j) == g && b1[j] == d;
            if j == i {
                assert(d == n && g == row_of(i));
            } else {
                assert(b[j] == d);
            }
            assert(digit_in_row(b, g, d));
        }
        if digit_in_row(b, g, d) {
            let j = choose|j: int| 0 <= j < 81 && row_of(j) == g && b[j] == d;
            assert(j != i);
            assert(b1[j] == d);
            assert(digit_in_row(b1, g, d));
        }
    }
}

proof fn lemma_place_digit_block(b: Seq<u8>, i: int, n: u8, g: int, d: u8)
    requires
        wf_grid_req(b),
        0 <= i < 81,
        b[i] == 0,
        1 <= n <= 9,
        1 <= d <= 9,
    ensures
        digit_in_block(b.update(i, n), g, d) == (digit_in_block(b, g, d) || (g == block_of(i) && d
            == n)),
{
    let b1 = b.update(i, n);
    if g == block_of(i) && d == n {
        assert(digit_in_block(b1, g, d));
    } else {
        if digit_in_block(b1, g, d) {
            let j = choose|j: int| 0 <= j < 81 && block_of(j) == g && b1[j] == d;
            if j == i {
                assert(d == n && g == block_of(i));
            } else {
                assert(b[j] == d);
            }
            assert(digit_in_block(b, g, d));
        }
        if digit_in_block(b, g, d) {
            let j = choose|j: int| 0 <= j < 81 && block_of(j) == g && b[j] == d;
            assert(j != i);
            assert(b1[j] == d);
            assert(digit_in_block(b1, g, d));
        }
    }
}

/// Erasing the digit `n` at cell `i` of a valid grid removes exactly the
/// occurrence `(col_of(i), n)` from its column: validity means `n` appeared
/// nowhere else in that column.
proof fn lemma_erase_digit_col(b: Seq<u8>, i: int, n: u8, g: int, d: u8)
    requires
        valid_grid(b),
        0 <= i < 81,
        b[i] == n,
        1 <= n <= 9,
        1 <= d <= 9,
    ensures
        digit_in_col(b.update(i, 0u8), g, d) == (digit_in_col(b, g, d) && !(g == col_of(i) && d
            == n)),
{
    let b1 = b.update(i, 0u8);
    if digit_in_col(b1, g, d) {
        let j = choose|j: int| 0 <= j < 81 && col_of(j) == g && b1[j] == d;
        assert(j != i);
        assert(b[j] == d);
        assert(digit_in_col(b, g, d));
        if g == col_of(i) && d == n {
            assert(crate::model::same_group(i, j));
            assert(false);
        }
    }
    if digit_in_col(b, g, d) && !(g == col_of(i) && d == n) {
        let j = choose|j: int| 0 <= j < 81 && col_of(j) == g && b[j] == d;
        if j == i {
            assert(d == n && g == col_of(i));
        }
        assert(j != i);
        assert(b1[j] == d);
        assert(digit_in_col(b1, g, d));
    }
}

proof fn lemma_erase_digit_row(b: Seq<u8>, i: int, n: u8, g: int, d: u8)
    requires
        valid_grid(b),
        0 <= i < 81,
        b[i] == n,
        1 <= n <= 9,
        1 <= d <= 9,
    ensures
        digit_in_row(b.update(i, 0u8), g, d) == (digit_in_row(b, g, d) && !(g == row_of(i) && d
            == n)),
{
    let b1 = b.update(i, 0u8);
    if digit_in_row(b1, g, d) {
        let j = choose|j: int| 0 <= j < 81 && row_of(j) == g && b1[j] == d;
        assert(j != i);
        assert(b[j] == d);
        assert(digit_in_row(b, g, d));
        if g == row_of(i) && d == n {
            assert(crate::model::same_group(i, j));
            assert(false);
        }
    }
    if digit_in_row(b, g, d) && !(g == row_of(i) && d == n) {
        let j = choose|j: int| 0 <= j < 81 && row_of(j) == g && b[j] == d;
        if j == i {
            assert(d == n && g == row_of(i));
        }
        assert(j != i);
        assert(b1[j] == d);
        assert(digit_in_row(b1, g, d));
    }
}

proof fn lemma_erase_digit_block(b: Seq<u8>, i: int, n: u8, g: int, d: u8)
    requires
        valid_grid(b),
        0 <= i < 81,
        b[i] == n,
        1 <= n <= 9,
        1 <= d <= 9,
    ensures
        digit_in_block(b.update(i, 0u8), g, d) == (digit_in_block(b, g, d) && !(g == block_of(i)
            && d == n)),
{
    let b1 = b.update(i, 0u8);
    if digit_in_block(b1, g, d) {
        let j = choose|j: int| 0 <= j < 81 && block_of(j) == g && b1[j] == d;
        assert(j != i);
        assert(b[j] == d);
        assert(digit_in_block(b, g, d));
        if g == block_of(i) && d == n {
            assert(crate::model::same_group(i, j));
            assert(false);
        }
    }
    if digit_in_block(b, g, d) && !(g == block_of(i) && d == n) {
        let j = choose|j: int| 0 <= j < 81 && block_of(j) == g && b[j] == d;
        if j == i {
            assert(d == n && g == block_of(i));
        }
        assert(j != i);
        assert(b1[j] == d);
        assert(digit_in_block(b1, g, d));
    }
}

/// The length and entry bounds of a grid, as the occurrence lemmas need them.
spec fn wf_grid_req(b: Seq<u8>) -> bool {
    b.len() == 81
}

} // verus!
