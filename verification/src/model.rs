//! Mathematical model of a Sudoku grid.
//!
//! A grid is a length-81 sequence of cell values in row-major order, where 0
//! means "vacant" and 1..=9 is a placed digit. All contracts of the engine are
//! stated over this model.

use vstd::prelude::*;

verus! {

/// Index of the row (0..9) containing cell `i` (cells numbered 0..81, row-major).
pub open spec fn row_of(i: int) -> int {
    i / 9
}

/// Index of the column (0..9) containing cell `i`.
pub open spec fn col_of(i: int) -> int {
    i % 9
}

/// Index of the 3x3 block (0..9, numbered left-to-right, top-to-bottom)
/// containing cell `i`.
pub open spec fn block_of(i: int) -> int {
    3 * (i / 27) + (i % 9) / 3
}

/// Cells `i` and `j` share a row, a column, or a block.
pub open spec fn same_group(i: int, j: int) -> bool {
    row_of(i) == row_of(j) || col_of(i) == col_of(j) || block_of(i) == block_of(j)
}

/// The sequence has the right length and every entry is 0 (vacant) or a digit 1..=9.
pub open spec fn wf_grid(b: Seq<u8>) -> bool {
    b.len() == 81 && (forall|i: int| 0 <= i < 81 ==> b[i] <= 9)
}

/// No two distinct filled cells of one row/column/block hold the same digit.
pub open spec fn no_dups(b: Seq<u8>) -> bool {
    forall|i: int, j: int|
        0 <= i < 81 && 0 <= j < 81 && i != j && same_group(i, j) && b[i] != 0 ==> b[i] != b[j]
}

/// A well-formed grid satisfying the row/column/block distinctness invariant.
pub open spec fn valid_grid(b: Seq<u8>) -> bool {
    wf_grid(b) && no_dups(b)
}

/// Every cell is filled.
pub open spec fn full_grid(b: Seq<u8>) -> bool {
    forall|i: int| 0 <= i < 81 ==> b[i] != 0
}

/// Digit `d` appears in some cell of row `r`.
pub open spec fn digit_in_row(b: Seq<u8>, r: int, d: u8) -> bool {
    exists|i: int| 0 <= i < 81 && row_of(i) == r && b[i] == d
}

/// Digit `d` appears in some cell of column `c`.
pub open spec fn digit_in_col(b: Seq<u8>, c: int, d: u8) -> bool {
    exists|i: int| 0 <= i < 81 && col_of(i) == c && b[i] == d
}

/// Digit `d` appears in some cell of block `bl`.
pub open spec fn digit_in_block(b: Seq<u8>, bl: int, d: u8) -> bool {
    exists|i: int| 0 <= i < 81 && block_of(i) == bl && b[i] == d
}

/// Digit `d` may be placed at cell `i`: it appears nowhere in `i`'s row,
/// column, or block.
pub open spec fn legal_at(b: Seq<u8>, i: int, d: u8) -> bool {
    &&& !digit_in_row(b, row_of(i), d)
    &&& !digit_in_col(b, col_of(i), d)
    &&& !digit_in_block(b, block_of(i), d)
}

/// Grid `c` agrees with `b` on every filled cell of `b`.
pub open spec fn grid_extends(c: Seq<u8>, b: Seq<u8>) -> bool {
    c.len() == 81 && b.len() == 81 && (forall|i: int| 0 <= i < 81 && b[i] != 0 ==> c[i] == b[i])
}

/// `c` is a full, valid grid that completes the partial grid `b`.
pub open spec fn is_completion(c: Seq<u8>, b: Seq<u8>) -> bool {
    valid_grid(c) && full_grid(c) && grid_extends(c, b)
}

/// Some completion of `b` exists.
pub open spec fn solvable(b: Seq<u8>) -> bool {
    exists|c: Seq<u8>| is_completion(c, b)
}

/// At least two distinct completions of `b` exist.
pub open spec fn two_completions(b: Seq<u8>) -> bool {
    exists|c1: Seq<u8>, c2: Seq<u8>| is_completion(c1, b) && is_completion(c2, b) && c1 != c2
}

/// Exactly one completion of `b` exists.
pub open spec fn uniquely_solvable(b: Seq<u8>) -> bool {
    solvable(b) && !two_completions(b)
}

/// The set of vacant cell indices of `b`.
pub open spec fn vacant_cells(b: Seq<u8>) -> Set<int> {
    Set::new(|i: int| 0 <= i < 81 && b[i] == 0)
}

/// The all-vacant grid.
pub open spec fn empty_grid() -> Seq<u8> {
    Seq::new(81, |i: int| 0u8)
}

/// How many cells of `b` are filled.
pub open spec fn filled_count(b: Seq<u8>) -> int {
    81 - vacant_cells(b).len()
}

/// The vacant set is finite and no larger than the board.
pub proof fn lemma_vacant_finite(b: Seq<u8>)
    ensures
        vacant_cells(b).finite(),
        vacant_cells(b).len() <= 81,
{
    vstd::set_lib::lemma_int_range(0, 81);
    assert(vacant_cells(b).subset_of(vstd::set_lib::set_int_range(0, 81)));
    vstd::set_lib::lemma_len_subset(vacant_cells(b), vstd::set_lib::set_int_range(0, 81));
}

/// Two distinct cells of column `c` hold the same digit.
pub open spec fn dup_in_col(b: Seq<u8>, c: int) -> bool {
    exists|i: int, j: int|
        0 <= i < 81 && 0 <= j < 81 && i != j && col_of(i) == c && col_of(j) == c && b[i] != 0
            && b[i] == b[j]
}

/// Two distinct cells of row `r` hold the same digit.
pub open spec fn dup_in_row(b: Seq<u8>, r: int) -> bool {
    exists|i: int, j: int|
        0 <= i < 81 && 0 <= j < 81 && i != j && row_of(i) == r && row_of(j) == r && b[i] != 0
            && b[i] == b[j]
}

/// Two distinct cells of block `bl` hold the same digit.
pub open spec fn dup_in_block(b: Seq<u8>, bl: int) -> bool {
    exists|i: int, j: int|
        0 <= i < 81 && 0 <= j < 81 && i != j && block_of(i) == bl && block_of(j) == bl && b[i] != 0
            && b[i] == b[j]
}

/// The distinctness invariant holds exactly when no row, column, or block has
/// a repeated digit.
pub proof fn lemma_no_dups_iff(b: Seq<u8>)
    requires
        b.len() == 81,
    ensures
        no_dups(b) <==> ((forall|g: int| 0 <= g < 9 ==> !dup_in_col(b, g)) && (forall|g: int|
            0 <= g < 9 ==> !dup_in_row(b, g)) && (forall|g: int|
            0 <= g < 9 ==> !dup_in_block(b, g))),
{
    if no_dups(b) {
        assert forall|g: int| 0 <= g < 9 implies !dup_in_col(b, g) by {
            if dup_in_col(b, g) {
                let (i, j) = choose|i: int, j: int|
                    0 <= i < 81 && 0 <= j < 81 && i != j && col_of(i) == g && col_of(j) == g
                        && b[i] != 0 && b[i] == b[j];
                assert(same_group(i, j));
            }
        }
        assert forall|g: int| 0 <= g < 9 implies !dup_in_row(b, g) by {
            if dup_in_row(b, g) {
                let (i, j) = choose|i: int, j: int|
                    0 <= i < 81 && 0 <= j < 81 && i != j && row_of(i) == g && row_of(j) == g
                        && b[i] != 0 && b[i] == b[j];
                assert(same_group(i, j));
            }
        }
        assert forall|g: int| 0 <= g < 9 implies !dup_in_block(b, g) by {
            if dup_in_block(b, g) {
                let (i, j) = choose|i: int, j: int|
                    0 <= i < 81 && 0 <= j < 81 && i != j && block_of(i) == g && block_of(j) == g
                        && b[i] != 0 && b[i] == b[j];
                assert(same_group(i, j));
            }
        }
    }
    if (forall|g: int| 0 <= g < 9 ==> !dup_in_col(b, g)) && (forall|g: int|
        0 <= g < 9 ==> !dup_in_row(b, g)) && (forall|g: int| 0 <= g < 9 ==> !dup_in_block(b, g)) {
        assert forall|i: int, j: int|
            0 <= i < 81 && 0 <= j < 81 && i != j && same_group(i, j) && b[i] != 0 implies b[i]
            != b[j] by {
            if b[i] == b[j] {
                lemma_cell_decompose(i);
                lemma_cell_decompose(j);
                if row_of(i) == row_of(j) {
                    assert(dup_in_row(b, row_of(i)));
                } else if col_of(i) == col_of(j) {
                    assert(dup_in_col(b, col_of(i)));
                } else {
                    assert(dup_in_block(b, block_of(i)));
                }
            }
        }
    }
}

/// The digit (shifted down by one) the pattern grid puts at cell `i`: the
/// classic row-shift construction.
pub open spec fn pattern_digit(i: int) -> int {
    (3 * row_of(i) + row_of(i) / 3 + col_of(i)) % 9
}

/// One concrete fully solved grid, built from `pattern_digit`.
pub open spec fn pattern_grid() -> Seq<u8> {
    Seq::new(81, |i: int| (pattern_digit(i) + 1) as u8)
}

/// Two nonnegative values closer than the modulus with equal remainders are
/// equal.
proof fn lemma_mod9_distinct(x: int, y: int)
    requires
        x >= 0,
        y >= 0,
        x != y,
        -9 < x - y < 9,
    ensures
        x % 9 != y % 9,
{
    vstd::arithmetic::div_mod::lemma_fundamental_div_mod(x, 9);
    vstd::arithmetic::div_mod::lemma_fundamental_div_mod(y, 9);
    if x % 9 == y % 9 {
        assert(x - y == 9 * (x / 9 - y / 9));
        assert((-9 < 9 * (x / 9 - y / 9) < 9) ==> x / 9 - y / 9 == 0) by (nonlinear_arith);
    }
}

/// The pattern digit of cell `i` in its flattened form, with its bounds.
proof fn lemma_pattern_digit_form(i: int)
    requires
        0 <= i < 81,
    ensures
        0 <= pattern_digit(i) < 9,
        pattern_digit(i) == (row_of(i) / 3 + 3 * (row_of(i) % 3) + col_of(i)) % 9,
        0 <= row_of(i) / 3 + 3 * (row_of(i) % 3) + col_of(i) < 17,
{
    let r = row_of(i);
    let c = col_of(i);
    lemma_cell_decompose(i);
    let a = r / 3;
    let b = r % 3;
    vstd::arithmetic::div_mod::lemma_fundamental_div_mod(r, 3);
    assert(0 <= b < 3 && 0 <= a < 3) by (nonlinear_arith)
        requires
            0 <= r < 9 && r == 3 * a + b && b == r % 3 && a == r / 3,
    ;
    assert(3 * r + r / 3 + c == 9 * a + (a + 3 * b + c));
    vstd::arithmetic::div_mod::lemma_mod_multiples_vanish(a, a + 3 * b + c, 9);
}

/// Any two distinct cells of one group get distinct pattern digits.
proof fn lemma_pattern_distinct(i: int, j: int)
    requires
        0 <= i < 81,
        0 <= j < 81,
        i != j,
        same_group(i, j),
    ensures
        pattern_digit(i) != pattern_digit(j),
{
    lemma_cell_decompose(i);
    lemma_cell_decompose(j);
    lemma_pattern_digit_form(i);
    lemma_pattern_digit_form(j);
    let r1 = row_of(i);
    let c1 = col_of(i);
    let r2 = row_of(j);
    let c2 = col_of(j);
    let a1 = r1 / 3;
    let b1 = r1 % 3;
    let a2 = r2 / 3;
    let b2 = r2 % 3;
    let e1 = c1 / 3;
    let g1 = c1 % 3;
    let e2 = c2 / 3;
    let g2 = c2 % 3;
    vstd::arithmetic::div_mod::lemma_fundamental_div_mod(r1, 3);
    vstd::arithmetic::div_mod::lemma_fundamental_div_mod(r2, 3);
    vstd::arithmetic::div_mod::lemma_fundamental_div_mod(c1, 3);
    vstd::arithmetic::div_mod::lemma_fundamental_div_mod(c2, 3);
    assert(0 <= a1 < 3 && 0 <= b1 < 3 && 0 <= e1 < 3 && 0 <= g1 < 3) by (nonlinear_arith)
        requires
            0 <= r1 < 9 && 0 <= c1 < 9 && r1 == 3 * a1 + b1 && c1 == 3 * e1 + g1 && a1 == r1 / 3
                && b1 == r1 % 3 && e1 == c1 / 3 && g1 == c1 % 3,
    ;
    assert(0 <= a2 < 3 && 0 <= b2 < 3 && 0 <= e2 < 3 && 0 <= g2 < 3) by (nonlinear_arith)
        requires
            0 <= r2 < 9 && 0 <= c2 < 9 && r2 == 3 * a2 + b2 && c2 == 3 * e2 + g2 && a2 == r2 / 3
                && b2 == r2 % 3 && e2 == c2 / 3 && g2 == c2 % 3,
    ;
    let x1 = a1 + 3 * b1 + c1;
    let x2 = a2 + 3 * b2 + c2;
    if r1 == r2 {
        assert(c1 != c2);
        lemma_mod9_distinct(x1, x2);
    } else if c1 == c2 {
        assert(x1 != x2) by {
            if x1 == x2 {
                assert(a1 + 3 * b1 == a2 + 3 * b2);
                vstd::arithmetic::div_mod::lemma_fundamental_div_mod_converse(
                    a1 + 3 * b1,
                    3,
                    b1,
                    a1,
                );
                vstd::arithmetic::div_mod::lemma_fundamental_div_mod_converse(
                    a2 + 3 * b2,
                    3,
                    b2,
                    a2,
                );
                assert(a1 == a2 && b1 == b2);
                assert(r1 == r2);
            }
        }
        lemma_mod9_distinct(x1, x2);
    } else {
        assert(block_of(i) == block_of(j));
        assert(3 * a1 + e1 == 3 * a2 + e2);
        vstd::arithmetic::div_mod::lemma_fundamental_div_mod_converse(3 * a1 + e1, 3, a1, e1);
        vstd::arithmetic::div_mod::lemma_fundamental_div_mod_converse(3 * a2 + e2, 3, a2, e2);
        assert(a1 == a2 && e1 == e2);
        assert(x1 != x2) by {
            if x1 == x2 {
                assert(3 * b1 + g1 == 3 * b2 + g2);
                vstd::arithmetic::div_mod::lemma_fundamental_div_mod_converse(
                    3 * b1 + g1,
                    3,
                    b1,
                    g1,
                );
                vstd::arithmetic::div_mod::lemma_fundamental_div_mod_converse(
                    3 * b2 + g2,
                    3,
                    b2,
                    g2,
                );
                assert(b1 == b2 && g1 == g2);
                assert(r1 == r2 && c1 == c2);
                assert(i == j);
            }
        }
        lemma_mod9_distinct(x1, x2);
    }
}

/// The empty grid has a completion: the pattern grid.
pub proof fn lemma_empty_solvable()
    ensures
        solvable(empty_grid()),
{
    let w = pattern_grid();
    assert(wf_grid(w) && full_grid(w)) by {
        assert forall|i: int| 0 <= i < 81 implies 1 <= #[trigger] w[i] <= 9 by {
            lemma_pattern_digit_form(i);
        }
    }
    assert(no_dups(w)) by {
        assert forall|i: int, j: int|
            #![trigger w[i], w[j]]
            0 <= i < 81 && 0 <= j < 81 && i != j && same_group(i, j) && w[i] != 0 implies w[i]
            != w[j] by {
            lemma_pattern_distinct(i, j);
            lemma_pattern_digit_form(i);
            lemma_pattern_digit_form(j);
        }
    }
    assert(grid_extends(w, empty_grid()));
    assert(is_completion(w, empty_grid()));
}

/// Placing a digit at a vacant cell shrinks the vacant set by that cell.
pub proof fn lemma_vacant_update_removes(b: Seq<u8>, i: int, d: u8)
    requires
        b.len() == 81,
        0 <= i < 81,
        b[i] == 0,
        d != 0,
    ensures
        vacant_cells(b.update(i, d)) == vacant_cells(b).remove(i),
        vacant_cells(b.update(i, d)).len() < vacant_cells(b).len(),
{
    assert(vacant_cells(b.update(i, d)) =~= vacant_cells(b).remove(i));
    lemma_vacant_finite(b);
    assert(vacant_cells(b).contains(i));
    vstd::set::axiom_set_remove_len(vacant_cells(b), i);
}

/// How many digits in `dlo..=9` may legally be placed at cell `i` of `b`.
pub open spec fn count_legal_from(b: Seq<u8>, i: int, dlo: int) -> nat
    decreases 10 - dlo,
{
    if dlo < 1 || dlo > 9 {
        0
    } else {
        (if legal_at(b, i, dlo as u8) {
            1nat
        } else {
            0nat
        }) + count_legal_from(b, i, dlo + 1)
    }
}

/// How many digits may legally be placed at cell `i` of `b`.
pub open spec fn count_legal(b: Seq<u8>, i: int) -> nat {
    count_legal_from(b, i, 1)
}

/// The most constrained vacant cell at index `k` or later: fewest legal
/// digits, ties broken by the smallest cell index. This fixes the search's
/// decision order.
pub open spec fn best_vacant_from(b: Seq<u8>, k: int) -> Option<int>
    decreases 81 - k,
{
    if k < 0 || k >= 81 {
        None
    } else {
        let rest = best_vacant_from(b, k + 1);
        if b[k] != 0 {
            rest
        } else {
            match rest {
                Option::None => Some(k),
                Option::Some(j) => if count_legal(b, k) <= count_legal(b, j) {
                    Some(k)
                } else {
                    Some(j)
                },
            }
        }
    }
}

/// The cell the search fills next, if any cell is vacant.
pub open spec fn best_vacant(b: Seq<u8>) -> Option<int> {
    best_vacant_from(b, 0)
}

/// `best_vacant_from` returns exactly the least-index minimum-count vacant
/// cell at or after `k`, or `None` when none is vacant there.
pub proof fn lemma_best_vacant_from(b: Seq<u8>, k: int)
    requires
        0 <= k <= 81,
    ensures
        match best_vacant_from(b, k) {
            Option::None => forall|i: int| k <= i < 81 ==> b[i] != 0,
            Option::Some(i) => k <= i < 81 && b[i] == 0 && (forall|j: int|
                k <= j < 81 && b[j] == 0 ==> count_legal(b, i) <= count_legal(b, j)) && (
            forall|j: int|
                k <= j < 81 && b[j] == 0 && count_legal(b, j) == count_legal(b, i) ==> i <= j),
        },
    decreases 81 - k,
{
    if k < 81 {
        lemma_best_vacant_from(b, k + 1);
    }
}

/// The completion the fixed-order backtracking search reaches first: most
/// constrained vacant cell first, candidate digits ascending, depth first.
pub open spec fn first_solution(b: Seq<u8>) -> Option<Seq<u8>>
    decreases vacant_cells(b).len(), 10int,
{
    if b.len() != 81 {
        None
    } else {
        match best_vacant(b) {
            Option::None => Some(b),
            Option::Some(i) => first_solution_from(b, i, 1),
        }
    }
}

/// Tries digits `d..=9` at vacant cell `i` in ascending order, recursing into
/// the updated grid for each legal one; the first completion found wins.
pub open spec fn first_solution_from(b: Seq<u8>, i: int, d: int) -> Option<Seq<u8>>
    decreases vacant_cells(b).len(), 10 - d,
{
    if b.len() != 81 || d < 1 || d > 9 || !(0 <= i < 81) || b[i] != 0 {
        None
    } else if legal_at(b, i, d as u8) {
        proof {
            lemma_vacant_update_removes(b, i, d as u8);
        }
        let attempt = first_solution(b.update(i, d as u8));
        if attempt is Some {
            attempt
        } else {
            first_solution_from(b, i, d + 1)
        }
    } else {
        first_solution_from(b, i, d + 1)
    }
}

/// How many nodes the fixed-order existence search enters on `b`, counting
/// one per recursion level and stopping at the first completion.
pub open spec fn search_nodes(b: Seq<u8>) -> nat
    decreases vacant_cells(b).len(), 10int,
{
    if b.len() != 81 {
        1
    } else {
        match best_vacant(b) {
            Option::None => 1,
            Option::Some(i) => 1 + search_nodes_from(b, i, 1),
        }
    }
}

/// The nodes spent trying digits `d..=9` at vacant cell `i`: each legal digit
/// costs its subtree, and a solvable subtree ends the search.
pub open spec fn search_nodes_from(b: Seq<u8>, i: int, d: int) -> nat
    decreases vacant_cells(b).len(), 10 - d,
{
    if b.len() != 81 || d < 1 || d > 9 || !(0 <= i < 81) || b[i] != 0 {
        0
    } else if legal_at(b, i, d as u8) {
        proof {
            lemma_vacant_update_removes(b, i, d as u8);
        }
        let sub = search_nodes(b.update(i, d as u8));
        if solvable(b.update(i, d as u8)) {
            sub
        } else {
            sub + search_nodes_from(b, i, d + 1)
        }
    } else {
        search_nodes_from(b, i, d + 1)
    }
}

/// Every search visits at least its root node.
pub proof fn lemma_search_nodes_pos(b: Seq<u8>)
    ensures
        search_nodes(b) >= 1,
{
    if b.len() == 81 {
        match best_vacant(b) {
            Option::None => {},
            Option::Some(i) => {},
        }
    }
}

/// A legal digit's subtree is part of the nodes spent from that digit on.
pub proof fn lemma_search_nodes_from_lb(b: Seq<u8>, i: int, d: int)
    requires
        b.len() == 81,
        0 <= i < 81,
        b[i] == 0,
        1 <= d <= 9,
        legal_at(b, i, d as u8),
    ensures
        search_nodes_from(b, i, d) >= search_nodes(b.update(i, d as u8)),
{
}

/// Skipping over digits that are not legal changes neither the nodes spent
/// nor the completion found.
pub proof fn lemma_search_skip(b: Seq<u8>, i: int, e1: int, e2: int)
    requires
        b.len() == 81,
        0 <= i < 81,
        b[i] == 0,
        1 <= e1 <= e2 <= 10,
        forall|e: int| e1 <= e < e2 ==> !(#[trigger] legal_at(b, i, e as u8)),
    ensures
        search_nodes_from(b, i, e1) == search_nodes_from(b, i, e2),
        first_solution_from(b, i, e1) == first_solution_from(b, i, e2),
    decreases e2 - e1,
{
    if e1 < e2 {
        assert(!legal_at(b, i, e1 as u8));
        lemma_search_skip(b, i, e1 + 1, e2);
    }
}

/// Whatever the fixed-order search returns is a completion of its start grid.
pub proof fn lemma_first_solution_sound(b: Seq<u8>)
    requires
        valid_grid(b),
    ensures
        first_solution(b) matches Some(c) ==> is_completion(c, b),
    decreases vacant_cells(b).len(), 10int,
{
    match best_vacant(b) {
        Option::None => {
            lemma_best_vacant_from(b, 0);
            assert(full_grid(b));
            assert(is_completion(b, b));
        },
        Option::Some(i) => {
            lemma_best_vacant_from(b, 0);
            lemma_first_solution_from_sound(b, i, 1);
        },
    }
}

/// As `lemma_first_solution_sound`, for the digit loop at one cell.
pub proof fn lemma_first_solution_from_sound(b: Seq<u8>, i: int, d: int)
    requires
        valid_grid(b),
    ensures
        first_solution_from(b, i, d) matches Some(c) ==> is_completion(c, b),
    decreases vacant_cells(b).len(), 10 - d,
{
    if b.len() != 81 || d < 1 || d > 9 || !(0 <= i < 81) || b[i] != 0 {
    } else if legal_at(b, i, d as u8) {
        lemma_vacant_update_removes(b, i, d as u8);
        lemma_place_keeps_valid(b, i, d as u8);
        lemma_first_solution_sound(b.update(i, d as u8));
        match first_solution(b.update(i, d as u8)) {
            Option::Some(c) => {
                lemma_completion_of_update(c, b, i, d as u8);
            },
            Option::None => {
                lemma_first_solution_from_sound(b, i, d + 1);
            },
        }
    } else {
        lemma_first_solution_from_sound(b, i, d + 1);
    }
}

/// A uniquely solvable grid has at most one completion: any two coincide.
pub proof fn lemma_unique_completion(b: Seq<u8>, c1: Seq<u8>, c2: Seq<u8>)
    requires
        uniquely_solvable(b),
        is_completion(c1, b),
        is_completion(c2, b),
    ensures
        c1 == c2,
{
    if c1 != c2 {
        assert(two_completions(b));
    }
}

/// A completion of a grid with one more cell filled also completes the
/// original grid.
pub proof fn lemma_completion_of_update(c: Seq<u8>, b: Seq<u8>, i: int, d: u8)
    requires
        wf_grid(b),
        0 <= i < 81,
        b[i] == 0,
        1 <= d <= 9,
        is_completion(c, b.update(i, d)),
    ensures
        is_completion(c, b),
        c[i] == d,
{
    assert(forall|j: int| 0 <= j < 81 && b[j] != 0 ==> b.update(i, d)[j] == b[j]);
    assert(c[i] == b.update(i, d)[i]);
}

/// Conversely, a completion of `b` placing `d` at cell `i` completes the
/// updated grid as well.
pub proof fn lemma_completion_to_update(c: Seq<u8>, b: Seq<u8>, i: int, d: u8)
    requires
        wf_grid(b),
        0 <= i < 81,
        b[i] == 0,
        is_completion(c, b),
        c[i] == d,
    ensures
        is_completion(c, b.update(i, d)),
{
    assert(forall|j: int| 0 <= j < 81 && b.update(i, d)[j] != 0 ==> c[j] == b.update(i, d)[j])
        by {
        assert(forall|j: int|
            0 <= j < 81 && j != i && b.update(i, d)[j] != 0 ==> c[j] == b.update(i, d)[j]);
    }
}

/// A full valid grid is its own sole completion.
pub proof fn lemma_full_unique(b: Seq<u8>)
    requires
        valid_grid(b),
        full_grid(b),
    ensures
        uniquely_solvable(b),
        forall|c: Seq<u8>| is_completion(c, b) ==> c == b,
{
    assert(is_completion(b, b));
    assert forall|c: Seq<u8>| is_completion(c, b) implies c == b by {
        assert(forall|i: int| 0 <= i < 81 ==> c[i] == b[i]);
        assert(c =~= b);
    }
}

/// A digit placed by any completion at a vacant cell is legal there: it cannot
/// already appear in the cell's row, column, or block.
pub proof fn lemma_completion_digit_legal(c: Seq<u8>, b: Seq<u8>, i: int)
    requires
        wf_grid(b),
        0 <= i < 81,
        b[i] == 0,
        is_completion(c, b),
    ensures
        1 <= c[i] <= 9,
        legal_at(b, i, c[i]),
{
    let d = c[i];
    assert(d != 0 && d <= 9);
    assert(!digit_in_row(b, row_of(i), d)) by {
        if digit_in_row(b, row_of(i), d) {
            let j = choose|j: int| 0 <= j < 81 && row_of(j) == row_of(i) && b[j] == d;
            assert(c[j] == d);
            assert(j != i);
            assert(same_group(i, j));
            assert(c[i] != c[j]);
        }
    }
    assert(!digit_in_col(b, col_of(i), d)) by {
        if digit_in_col(b, col_of(i), d) {
            let j = choose|j: int| 0 <= j < 81 && col_of(j) == col_of(i) && b[j] == d;
            assert(c[j] == d);
            assert(j != i);
            assert(same_group(i, j));
            assert(c[i] != c[j]);
        }
    }
    assert(!digit_in_block(b, block_of(i), d)) by {
        if digit_in_block(b, block_of(i), d) {
            let j = choose|j: int| 0 <= j < 81 && block_of(j) == block_of(i) && b[j] == d;
            assert(c[j] == d);
            assert(j != i);
            assert(same_group(i, j));
            assert(c[i] != c[j]);
        }
    }
}

/// Placing a legal digit at a vacant cell of a valid grid keeps it valid.
pub proof fn lemma_place_keeps_valid(b: Seq<u8>, i: int, d: u8)
    requires
        valid_grid(b),
        0 <= i < 81,
        b[i] == 0,
        1 <= d <= 9,
        legal_at(b, i, d),
    ensures
        valid_grid(b.update(i, d)),
{
    let b2 = b.update(i, d);
    assert forall|p: int, q: int|
        0 <= p < 81 && 0 <= q < 81 && p != q && same_group(p, q) && b2[p] != 0 implies b2[p]
        != b2[q] by {
        if p == i {
            if b2[q] == d {
                assert(b[q] == d);
                if row_of(q) == row_of(i) {
                    assert(digit_in_row(b, row_of(i), d));
                } else if col_of(q) == col_of(i) {
                    assert(digit_in_col(b, col_of(i), d));
                } else {
                    assert(digit_in_block(b, block_of(i), d));
                }
            }
        } else if q == i {
            if b2[p] == d {
                assert(b[p] == d);
                if row_of(p) == row_of(i) {
                    assert(digit_in_row(b, row_of(i), d));
                } else if col_of(p) == col_of(i) {
                    assert(digit_in_col(b, col_of(i), d));
                } else {
                    assert(digit_in_block(b, block_of(i), d));
                }
            }
        }
    }
}

/// Blanking one cell keeps a valid grid valid.
pub proof fn lemma_blank_keeps_valid(b: Seq<u8>, i: int)
    requires
        valid_grid(b),
        0 <= i < 81,
    ensures
        valid_grid(b.update(i, 0)),
{
}

/// The cell of block `bl` at slot `k` (slots ascending in cell order).
pub open spec fn block_cell(bl: int, k: int) -> int {
    27 * (bl / 3) + 3 * (bl % 3) + 9 * (k / 3) + k % 3
}

/// The slot of cell `i` within its own block.
pub open spec fn block_slot(i: int) -> int {
    3 * (row_of(i) % 3) + col_of(i) % 3
}

/// Basic decomposition of a cell index into row, column, and block.
pub proof fn lemma_cell_decompose(i: int)
    requires
        0 <= i < 81,
    ensures
        0 <= row_of(i) < 9,
        0 <= col_of(i) < 9,
        0 <= block_of(i) < 9,
        i == 9 * row_of(i) + col_of(i),
        block_of(i) == 3 * (row_of(i) / 3) + col_of(i) / 3,
{
    assert(i == 9 * (i / 9) + i % 9 && 0 <= i % 9 < 9 && 0 <= i / 9 < 9) by (nonlinear_arith)
        requires
            0 <= i < 81,
    ;
    assert(i / 27 == (i / 9) / 3) by (nonlinear_arith)
        requires
            0 <= i,
    ;
    assert(0 <= (i % 9) / 3 < 3 && 0 <= (i / 9) / 3 < 3) by (nonlinear_arith)
        requires
            0 <= i < 81,
    ;
}

/// The cell of block `bl` at slot `k` lies in block `bl`, in the expected row
/// and column.
pub proof fn lemma_block_cell(bl: int, k: int)
    requires
        0 <= bl < 9,
        0 <= k < 9,
    ensures
        0 <= block_cell(bl, k) < 81,
        block_of(block_cell(bl, k)) == bl,
        row_of(block_cell(bl, k)) == 3 * (bl / 3) + k / 3,
        col_of(block_cell(bl, k)) == 3 * (bl % 3) + k % 3,
{
    let i = block_cell(bl, k);
    assert(0 <= bl / 3 < 3 && 0 <= bl % 3 < 3 && 0 <= k / 3 < 3 && 0 <= k % 3 < 3
        && bl == 3 * (bl / 3) + bl % 3 && k == 3 * (k / 3) + k % 3) by (nonlinear_arith)
        requires
            0 <= bl < 9,
            0 <= k < 9,
    ;
    let r = 3 * (bl / 3) + k / 3;
    let c = 3 * (bl % 3) + k % 3;
    assert(i == 9 * r + c);
    assert(0 <= c < 9 && 0 <= r < 9);
    vstd::arithmetic::div_mod::lemma_fundamental_div_mod_converse(i, 9, r, c);
    lemma_cell_decompose(i);
    vstd::arithmetic::div_mod::lemma_fundamental_div_mod_converse(r, 3, bl / 3, k / 3);
    vstd::arithmetic::div_mod::lemma_fundamental_div_mod_converse(c, 3, bl % 3, k % 3);
}

/// Every cell is the cell of its block at its block slot.
pub proof fn lemma_block_decompose(i: int)
    requires
        0 <= i < 81,
    ensures
        0 <= block_slot(i) < 9,
        block_cell(block_of(i), block_slot(i)) == i,
{
    lemma_cell_decompose(i);
    let r = row_of(i);
    let c = col_of(i);
    assert(0 <= r / 3 < 3 && 0 <= r % 3 < 3 && 0 <= c / 3 < 3 && 0 <= c % 3 < 3
        && r == 3 * (r / 3) + r % 3 && c == 3 * (c / 3) + c % 3) by (nonlinear_arith)
        requires
            0 <= r < 9,
            0 <= c < 9,
    ;
    let bl = block_of(i);
    let k = block_slot(i);
    assert(bl == 3 * (r / 3) + c / 3);
    assert(k == 3 * (r % 3) + c % 3);
    vstd::arithmetic::div_mod::lemma_fundamental_div_mod_converse(bl, 3, r / 3, c / 3);
    vstd::arithmetic::div_mod::lemma_fundamental_div_mod_converse(k, 3, r % 3, c % 3);
    assert(block_cell(bl, k) == 27 * (r / 3) + 3 * (c / 3) + 9 * (r % 3) + c % 3);
    assert(block_cell(bl, k) == 9 * r + c);
}


} // verus!
