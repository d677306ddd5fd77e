//! Per-dimension bit-packed masks recording which digits are still unused in
//! each row, column, and block.

use vstd::prelude::*;

use crate::bits::{lemma_and_not_bit, lemma_low_ops, lemma_or_bit, nth};
use crate::model::{block_of, col_of, row_of};
use crate::number::Number;
use crate::square::Square;

verus! {

/// Bit `t` of the 9-bit window `w` carved out of `m` at offset `s` equals bit
/// `s + t` of `m`.
proof fn lemma_window_bit(m: u128, s: u128, t: u128, k: u128, w: u32)
    requires
        s <= 72,
        t < 9,
        k == s + t,
        w == ((m >> s) & 0x1ff) as u32,
    ensures
        ((w >> (t as u32)) & 1 == 1) <==> nth(m, k),
        w < 512,
{
    assert(((w >> (t as u32)) & 1 == 1) <==> ((m >> k) & 1 == 1)) by (bit_vector)
        requires
            s <= 72,
            t < 9,
            k == s + t,
            w == ((m >> s) & 0x1ff) as u32,
    ;
    assert(w < 512) by (bit_vector)
        requires
            w == ((m >> s) & 0x1ff) as u32,
    ;
}

/// One dimension's mask: bit `9 * g + d - 1` set means digit `d` is still
/// unused in group `g` of that dimension.
#[derive(Clone, Copy, Debug, PartialEq, Eq, Structural)]
#[verifier::ext_equal]
pub(crate) struct UsedMask {
    pub(crate) m: u128,
}

impl UsedMask {
    /// Bits beyond position 80 are always zero.
    pub(crate) open spec fn wf(self) -> bool {
        self.m < (1u128 << 81)
    }

    /// Digit `d` (1..=9) is still unused in group `g` (0..9).
    pub(crate) open spec fn unused(self, g: int, d: int) -> bool {
        nth(self.m, (9 * g + d - 1) as u128)
    }

    /// The mask of a fully used dimension: nothing is legal anywhere.
    #[allow(dead_code)]
    pub(crate) fn all_used() -> (r: Self)
        ensures
            r.wf(),
            forall|g: int, d: int| 0 <= g < 9 && 1 <= d <= 9 ==> !r.unused(g, d),
    {
        let r = Self { m: 0 };
        proof {
            assert(0u128 < (1u128 << 81)) by (bit_vector);
            assert forall|g: int, d: int| 0 <= g < 9 && 1 <= d <= 9 implies !r.unused(g, d) by {
                let j = (9 * g + d - 1) as u128;
                assert((0u128 >> j) & 1 != 1) by (bit_vector);
            }
        }
        r
    }

    /// The mask of an untouched dimension: every digit legal in every group.
    pub(crate) fn all_unused() -> (r: Self)
        ensures
            r.wf(),
            forall|g: int, d: int| 0 <= g < 9 && 1 <= d <= 9 ==> r.unused(g, d),
    {
        let r = Self { m: u128::MAX >> 47 };
        proof {
            assert(u128::MAX >> 47 < (1u128 << 81)) by (bit_vector);
            assert forall|g: int, d: int| 0 <= g < 9 && 1 <= d <= 9 implies r.unused(g, d) by {
                let j = (9 * g + d - 1) as u128;
                assert(j < 81 ==> (((u128::MAX >> 47) >> j) & 1 == 1)) by (bit_vector);
            }
        }
        r
    }

    /// Marks digit `num` used in group `i` of this dimension.
    pub(crate) fn use_number(&mut self, i: u8, num: Number)
        requires
            i < 9,
            old(self).wf(),
        ensures
            final(self).wf(),
            final(self).m == old(self).m & !(1u128 << ((9 * i + num.spec_get() - 1) as u128)),
            forall|g: int, d: int|
                0 <= g < 9 && 1 <= d <= 9 ==> (final(self).unused(g, d) <==> (old(self).unused(
                    g,
                    d,
                ) && !(g == i as int && d == num.spec_get() as int))),
    {
        proof {
            use_type_invariant(num);
        }
        let n: u8 = num.get();
        let k: u8 = 9 * i + n - 1;
        let ghost m0 = self.m;
        self.m = self.m & !(1u128 << (k as u128));
        proof {
            lemma_low_ops(m0, k as u128);
            assert forall|g: int, d: int|
                0 <= g < 9 && 1 <= d <= 9 implies (self.unused(g, d) <==> (old(self).unused(g, d)
                && !(g == i as int && d == n as int))) by {
                let j = (9 * g + d - 1) as u128;
                lemma_and_not_bit(m0, k as u128, j);
                assert((9 * g + d - 1 == 9 * (i as int) + n - 1) <==> (g == i as int && d
                    == n as int));
            }
        }
    }

    /// Marks digit `num` unused again in group `i`; exactly reverses a prior
    /// matching `use_number`.
    pub(crate) fn unuse_number(&mut self, i: u8, num: Number)
        requires
            i < 9,
            old(self).wf(),
        ensures
            final(self).wf(),
            final(self).m == old(self).m | (1u128 << ((9 * i + num.spec_get() - 1) as u128)),
            forall|g: int, d: int|
                0 <= g < 9 && 1 <= d <= 9 ==> (final(self).unused(g, d) <==> (old(self).unused(
                    g,
                    d,
                ) || (g == i as int && d == num.spec_get() as int))),
    {
        proof {
            use_type_invariant(num);
        }
        let n: u8 = num.get();
        let k: u8 = 9 * i + n - 1;
        let ghost m0 = self.m;
        self.m = self.m | (1u128 << (k as u128));
        proof {
            lemma_low_ops(m0, k as u128);
            assert forall|g: int, d: int|
                0 <= g < 9 && 1 <= d <= 9 implies (self.unused(g, d) <==> (old(self).unused(g, d)
                || (g == i as int && d == n as int))) by {
                let j = (9 * g + d - 1) as u128;
                lemma_or_bit(m0, k as u128, j);
                assert((9 * g + d - 1 == 9 * (i as int) + n - 1) <==> (g == i as int && d
                    == n as int));
            }
        }
    }
}

/// The three per-dimension masks of one position.
#[derive(Clone, Copy, Debug, PartialEq, Eq, Structural)]
#[verifier::ext_equal]
pub(crate) struct UsedMasks {
    pub(crate) col_mask: UsedMask,
    pub(crate) row_mask: UsedMask,
    pub(crate) block_mask: UsedMask,
}

impl UsedMasks {
    pub(crate) open spec fn wf(self) -> bool {
        self.col_mask.wf() && self.row_mask.wf() && self.block_mask.wf()
    }

    /// Digit `d` is unused in the row, the column, and the block of cell `i`.
    pub(crate) open spec fn spec_legal(self, i: int, d: int) -> bool {
        &&& self.col_mask.unused(col_of(i), d)
        &&& self.row_mask.unused(row_of(i), d)
        &&& self.block_mask.unused(block_of(i), d)
    }

    /// How many digits in `dlo..=9` are legal at cell `i`.
    pub(crate) open spec fn count_from(self, i: int, dlo: int) -> nat
        decreases 10 - dlo,
    {
        if dlo < 1 || dlo > 9 {
            0
        } else {
            (if self.spec_legal(i, dlo) {
                1nat
            } else {
                0nat
            }) + self.count_from(i, dlo + 1)
        }
    }

    /// How many digits are legal at cell `i`.
    pub(crate) open spec fn n_cands(self, i: int) -> nat {
        self.count_from(i, 1)
    }

    /// The masks of a fully solved position.
    #[allow(dead_code)]
    pub(crate) fn all_used() -> (r: Self)
        ensures
            r.wf(),
            forall|g: int, d: int| 0 <= g < 9 && 1 <= d <= 9 ==> !r.col_mask.unused(g, d),
            forall|g: int, d: int| 0 <= g < 9 && 1 <= d <= 9 ==> !r.row_mask.unused(g, d),
            forall|g: int, d: int| 0 <= g < 9 && 1 <= d <= 9 ==> !r.block_mask.unused(g, d),
    {
        Self { col_mask: UsedMask::all_used(), row_mask: UsedMask::all_used(), block_mask: UsedMask::all_used() }
    }

    /// The masks of an empty position.
    pub(crate) fn all_unused() -> (r: Self)
        ensures
            r.wf(),
            forall|g: int, d: int| 0 <= g < 9 && 1 <= d <= 9 ==> r.col_mask.unused(g, d),
            forall|g: int, d: int| 0 <= g < 9 && 1 <= d <= 9 ==> r.row_mask.unused(g, d),
            forall|g: int, d: int| 0 <= g < 9 && 1 <= d <= 9 ==> r.block_mask.unused(g, d),
    {
        Self {
            col_mask: UsedMask::all_unused(),
            row_mask: UsedMask::all_unused(),
            block_mask: UsedMask::all_unused(),
        }
    }

    /// Records that digit `num` was written into vacant cell `sq`.
    pub(crate) fn use_number(&mut self, sq: Square, num: Number)
        requires
            old(self).wf(),
        ensures
            final(self).wf(),
            forall|g: int, d: int|
                0 <= g < 9 && 1 <= d <= 9 ==> (final(self).col_mask.unused(g, d) <==> (old(
                    self,
                ).col_mask.unused(g, d) && !(g == col_of(sq.spec_get() as int) && d
                    == num.spec_get() as int))),
            forall|g: int, d: int|
                0 <= g < 9 && 1 <= d <= 9 ==> (final(self).row_mask.unused(g, d) <==> (old(
                    self,
                ).row_mask.unused(g, d) && !(g == row_of(sq.spec_get() as int) && d
                    == num.spec_get() as int))),
            forall|g: int, d: int|
                0 <= g < 9 && 1 <= d <= 9 ==> (final(self).block_mask.unused(g, d) <==> (old(
                    self,
                ).block_mask.unused(g, d) && !(g == block_of(sq.spec_get() as int) && d
                    == num.spec_get() as int))),
            final(self).col_mask.m == old(self).col_mask.m & !(1u128 << ((9 * col_of(
                sq.spec_get() as int,
            ) + num.spec_get() - 1) as u128)),
            final(self).row_mask.m == old(self).row_mask.m & !(1u128 << ((9 * row_of(
                sq.spec_get() as int,
            ) + num.spec_get() - 1) as u128)),
            final(self).block_mask.m == old(self).block_mask.m & !(1u128 << ((9 * block_of(
                sq.spec_get() as int,
            ) + num.spec_get() - 1) as u128)),
    {
        self.col_mask.use_number(sq.col().get(), num);
        self.row_mask.use_number(sq.row().get(), num);
        self.block_mask.use_number(sq.block().get(), num);
    }

    /// Records that digit `num` was erased from cell `sq`; exactly reverses a
    /// prior matching `use_number`.
    pub(crate) fn unuse_number(&mut self, sq: Square, num: Number)
        requires
            old(self).wf(),
        ensures
            final(self).wf(),
            forall|g: int, d: int|
                0 <= g < 9 && 1 <= d <= 9 ==> (final(self).col_mask.unused(g, d) <==> (old(
                    self,
                ).col_mask.unused(g, d) || (g == col_of(sq.spec_get() as int) && d
                    == num.spec_get() as int))),
            forall|g: int, d: int|
                0 <= g < 9 && 1 <= d <= 9 ==> (final(self).row_mask.unused(g, d) <==> (old(
                    self,
                ).row_mask.unused(g, d) || (g == row_of(sq.spec_get() as int) && d
                    == num.spec_get() as int))),
            forall|g: int, d: int|
                0 <= g < 9 && 1 <= d <= 9 ==> (final(self).block_mask.unused(g, d) <==> (old(
                    self,
                ).block_mask.unused(g, d) || (g == block_of(sq.spec_get() as int) && d
                    == num.spec_get() as int))),
            final(self).col_mask.m == old(self).col_mask.m | (1u128 << ((9 * col_of(
                sq.spec_get() as int,
            ) + num.spec_get() - 1) as u128)),
            final(self).row_mask.m == old(self).row_mask.m | (1u128 << ((9 * row_of(
                sq.spec_get() as int,
            ) + num.spec_get() - 1) as u128)),
            final(self).block_mask.m == old(self).block_mask.m | (1u128 << ((9 * block_of(
                sq.spec_get() as int,
            ) + num.spec_get() - 1) as u128)),
    {
        self.col_mask.unuse_number(sq.col().get(), num);
        self.row_mask.unuse_number(sq.row().get(), num);
        self.block_mask.unuse_number(sq.block().get(), num);
    }

    /// The 9-bit candidate mask of cell `sq`: bit `d - 1` set means digit `d`
    /// is unused in all three of the cell's groups. The central primitive every
    /// query below is built on.
    pub(crate) fn candidate_mask(&self, sq: Square) -> (r: u32)
        requires
            self.wf(),
        ensures
            r < 512,
            forall|d: int|
                1 <= d <= 9 ==> (((r >> ((d - 1) as u32)) & 1 == 1) <==> self.spec_legal(
                    sq.spec_get() as int,
                    d,
                )),
    {
        let c: u8 = sq.col().get();
        let rw: u8 = sq.row().get();
        let bl: u8 = sq.block().get();
        let cm: u32 = ((self.col_mask.m >> ((9 * c) as u128)) & 0x1ff) as u32;
        let rm: u32 = ((self.row_mask.m >> ((9 * rw) as u128)) & 0x1ff) as u32;
        let bm: u32 = ((self.block_mask.m >> ((9 * bl) as u128)) & 0x1ff) as u32;
        let r: u32 = cm & rm & bm;
        proof {
            let i = sq.spec_get() as int;
            let m1 = self.col_mask.m;
            let m2 = self.row_mask.m;
            let m3 = self.block_mask.m;
            assert((((m1 >> ((9 * c) as u128)) & 0x1ff) as u32) < 512) by (bit_vector);
            assert((((m2 >> ((9 * rw) as u128)) & 0x1ff) as u32) < 512) by (bit_vector);
            assert((((m3 >> ((9 * bl) as u128)) & 0x1ff) as u32) < 512) by (bit_vector);
            assert forall|d: int|
                1 <= d <= 9 implies (((r >> ((d - 1) as u32)) & 1 == 1) <==> self.spec_legal(
                i,
                d,
            )) by {
                let t = (d - 1) as u128;
                lemma_window_bit(
                    self.col_mask.m,
                    (9 * c) as u128,
                    t,
                    (9 * col_of(i) + d - 1) as u128,
                    cm,
                );
                lemma_window_bit(
                    self.row_mask.m,
                    (9 * rw) as u128,
                    t,
                    (9 * row_of(i) + d - 1) as u128,
                    rm,
                );
                lemma_window_bit(
                    self.block_mask.m,
                    (9 * bl) as u128,
                    t,
                    (9 * block_of(i) + d - 1) as u128,
                    bm,
                );
                let tt = t as u32;
                assert((((cm & rm & bm) >> tt) & 1 == 1) <==> (((cm >> tt) & 1 == 1) && ((rm >> tt)
                    & 1 == 1) && ((bm >> tt) & 1 == 1))) by (bit_vector);
            }
            assert(cm < 512 ==> (cm & rm & bm) < 512) by (bit_vector);
        }
        r
    }

    /// Whether writing digit `num` into cell `sq` is a legal move.
    pub(crate) fn is_legal(&self, sq: Square, num: Number) -> (r: bool)
        requires
            self.wf(),
        ensures
            r == self.spec_legal(sq.spec_get() as int, num.spec_get() as int),
    {
        let mask = self.candidate_mask(sq);
        (mask >> ((num.get() - 1) as u32)) & 1 == 1
    }

    /// The digits legal at cell `sq`, ascending, computed from one snapshot of
    /// the masks.
    pub(crate) fn candidates(&self, sq: Square) -> (r: Vec<Number>)
        requires
            self.wf(),
        ensures
            forall|k: int| 0 <= k < r@.len() ==> 1 <= (#[trigger] r@[k].spec_get()) <= 9,
            forall|k: int|
                0 <= k < r@.len() ==> self.spec_legal(
                    sq.spec_get() as int,
                    #[trigger] r@[k].spec_get() as int,
                ),
            forall|k1: int, k2: int|
                0 <= k1 < k2 < r@.len() ==> r@[k1].spec_get() < r@[k2].spec_get(),
            forall|d: int|
                1 <= d <= 9 && self.spec_legal(sq.spec_get() as int, d) ==> exists|k: int|
                    0 <= k < r@.len() && #[trigger] r@[k].spec_get() as int == d,
    {
        let mask = self.candidate_mask(sq);
        let ghost i = sq.spec_get() as int;
        let mut out: Vec<Number> = Vec::new();
        let mut d: u8 = 1;
        while d <= 9
            invariant
                1 <= d <= 10,
                mask < 512,
                forall|e: int|
                    1 <= e <= 9 ==> (((mask >> ((e - 1) as u32)) & 1 == 1) <==> self.spec_legal(
                        i,
                        e,
                    )),
                forall|k: int|
                    0 <= k < out@.len() ==> self.spec_legal(i, #[trigger] out@[k].spec_get() as int),
                forall|k: int| 0 <= k < out@.len() ==> 1 <= #[trigger] out@[k].spec_get() < d,
                forall|k1: int, k2: int|
                    0 <= k1 < k2 < out@.len() ==> out@[k1].spec_get() < out@[k2].spec_get(),
                forall|e: int|
                    1 <= e < d && self.spec_legal(i, e) ==> exists|k: int|
                        0 <= k < out@.len() && #[trigger] out@[k].spec_get() as int == e,
            decreases 10 - d,
        {
            if (mask >> ((d - 1) as u32)) & 1 == 1 {
                let ghost out0 = out@;
                out.push(Number::new_unchecked(d));
                proof {
                    assert(out@[out0.len() as int].spec_get() == d);
                    assert forall|e: int|
                        1 <= e < d + 1 && self.spec_legal(i, e) implies exists|k: int|
                        0 <= k < out@.len() && #[trigger] out@[k].spec_get() as int == e by {
                        if e == d as int {
                            assert(out@[out0.len() as int].spec_get() as int == e);
                        } else {
                            let k = choose|k: int|
                                0 <= k < out0.len() && #[trigger] out0[k].spec_get() as int == e;
                            assert(out@[k].spec_get() as int == e);
                        }
                    }
                }
            }
            d = d + 1;
        }
        out
    }

    /// How many digits are legal at cell `sq`: the population count of the
    /// cell's candidate mask.
    pub(crate) fn candidate_count(&self, sq: Square) -> (r: u32)
        requires
            self.wf(),
        ensures
            r == self.n_cands(sq.spec_get() as int),
    {
        let mask = self.candidate_mask(sq);
        let ghost i = sq.spec_get() as int;
        let mut cnt: u32 = 0;
        let mut d: u8 = 1;
        proof {
            assert(self.count_from(i, 10) == 0);
        }
        while d <= 9
            invariant
                1 <= d <= 10,
                cnt <= d - 1,
                forall|e: int|
                    1 <= e <= 9 ==> (((mask >> ((e - 1) as u32)) & 1 == 1) <==> self.spec_legal(
                        i,
                        e,
                    )),
                cnt + self.count_from(i, d as int) == self.n_cands(i),
            decreases 10 - d,
        {
            proof {
                assert(self.count_from(i, d as int) == (if self.spec_legal(i, d as int) {
                    1nat
                } else {
                    0nat
                }) + self.count_from(i, d as int + 1));
            }
            if (mask >> ((d - 1) as u32)) & 1 == 1 {
                cnt = cnt + 1;
            }
            d = d + 1;
        }
        cnt
    }
}

} // verus!
