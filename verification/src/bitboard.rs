//! A fixed-capacity set of cells stored as one bit-packed word.

use vstd::prelude::*;

use crate::bits::{
    lemma_all_clear_zero, lemma_and_not_bit, lemma_low_ops, lemma_nonzero_has_bit, lemma_or_bit,
    nth,
};
use crate::square::Square;

verus! {

/// A set of cells packed into one `u128`, bit `i` standing for cell `i`.
#[derive(Clone, Copy, Debug, PartialEq, Eq, Structural)]
#[verifier::ext_equal]
pub(crate) struct Bitboard {
    pub(crate) m: u128,
}

impl Bitboard {
    /// Bits beyond position 80 are always zero.
    pub(crate) open spec fn wf(self) -> bool {
        self.m < (1u128 << 81)
    }

    /// Whether cell `i` is present.
    pub(crate) open spec fn has(self, i: int) -> bool {
        0 <= i < 81 && nth(self.m, i as u128)
    }

    /// The set of present cells.
    pub(crate) open spec fn to_set(self) -> Set<int> {
        Set::new(|i: int| self.has(i))
    }

    /// How many cells are present.
    pub(crate) open spec fn card(self) -> nat {
        self.to_set().len()
    }

    /// The member set is finite and no larger than the board.
    pub(crate) proof fn lemma_finite(self)
        ensures
            self.to_set().finite(),
            self.to_set().len() <= 81,
    {
        vstd::set_lib::lemma_int_range(0, 81);
        assert(self.to_set().subset_of(vstd::set_lib::set_int_range(0, 81)));
        vstd::set_lib::lemma_len_subset(self.to_set(), vstd::set_lib::set_int_range(0, 81));
    }

    /// The empty cell set.
    pub(crate) fn empty() -> (r: Self)
        ensures
            r.wf(),
            r.to_set() == Set::<int>::empty(),
            r.card() == 0,
    {
        let r = Self { m: 0 };
        proof {
            assert(0u128 < (1u128 << 81)) by (bit_vector);
            assert forall|i: int| !(r.has(i)) by {
                if 0 <= i < 81 {
                    let j = i as u128;
                    assert((0u128 >> j) & 1 != 1) by (bit_vector);
                }
            }
            assert(r.to_set() =~= Set::<int>::empty());
        }
        r
    }

    /// The set of all 81 cells.
    pub(crate) fn full() -> (r: Self)
        ensures
            r.wf(),
            forall|i: int| 0 <= i < 81 ==> r.has(i),
            r.card() == 81,
    {
        let r = Self { m: u128::MAX >> 47 };
        proof {
            assert(u128::MAX >> 47 < (1u128 << 81)) by (bit_vector);
            assert forall|i: int| 0 <= i < 81 implies r.has(i) by {
                let j = i as u128;
                assert(j < 81 ==> (((u128::MAX >> 47) >> j) & 1 == 1)) by (bit_vector);
            }
            assert forall|i: int| r.has(i) implies 0 <= i < 81 by {}
            assert(r.to_set() =~= vstd::set_lib::set_int_range(0, 81));
            vstd::set_lib::lemma_int_range(0, 81);
        }
        r
    }

    /// Whether no cell is present.
    pub(crate) fn is_zero(self) -> (r: bool)
        requires
            self.wf(),
        ensures
            r <==> self.to_set() == Set::<int>::empty(),
            !r ==> self.card() > 0,
    {
        proof {
            if self.m == 0 {
                assert forall|i: int| !(self.has(i)) by {
                    if 0 <= i < 81 {
                        let j = i as u128;
                        assert((0u128 >> j) & 1 != 1) by (bit_vector);
                    }
                }
                assert(self.to_set() =~= Set::<int>::empty());
            } else {
                lemma_nonzero_has_bit(self.m);
                let j = choose|j: u128| j < 81 && nth(self.m, j);
                assert(self.has(j as int));
                assert(self.to_set().contains(j as int));
                self.lemma_finite();
                if self.to_set().len() == 0 {
                    self.to_set().lemma_len0_is_empty();
                }
            }
        }
        self.m == 0
    }

    /// Adds cell `sq`; idempotent.
    pub(crate) fn add(&mut self, sq: Square)
        requires
            old(self).wf(),
        ensures
            final(self).wf(),
            final(self).to_set() == old(self).to_set().insert(sq.spec_get() as int),
            final(self).m == old(self).m | (1u128 << (sq.spec_get() as u128)),
    {
        proof {
            use_type_invariant(sq);
        }
        let k: u8 = sq.get();
        let ghost m0 = self.m;
        self.m = self.m | (1u128 << (k as u128));
        proof {
            lemma_low_ops(m0, k as u128);
            assert forall|i: int|
                self.to_set().contains(i) == old(self).to_set().insert(
                    sq.spec_get() as int,
                ).contains(i) by {
                if 0 <= i < 81 {
                    lemma_or_bit(m0, k as u128, i as u128);
                }
            }
            assert(self.to_set() =~= old(self).to_set().insert(sq.spec_get() as int));
        }
    }

    /// Removes cell `sq`; idempotent.
    pub(crate) fn remove(&mut self, sq: Square)
        requires
            old(self).wf(),
        ensures
            final(self).wf(),
            final(self).to_set() == old(self).to_set().remove(sq.spec_get() as int),
            final(self).m == old(self).m & !(1u128 << (sq.spec_get() as u128)),
    {
        proof {
            use_type_invariant(sq);
        }
        let k: u8 = sq.get();
        let ghost m0 = self.m;
        self.m = self.m & !(1u128 << (k as u128));
        proof {
            lemma_low_ops(m0, k as u128);
            assert forall|i: int|
                self.to_set().contains(i) == old(self).to_set().remove(
                    sq.spec_get() as int,
                ).contains(i) by {
                if 0 <= i < 81 {
                    lemma_and_not_bit(m0, k as u128, i as u128);
                }
            }
            assert(self.to_set() =~= old(self).to_set().remove(sq.spec_get() as int));
        }
    }

    /// Removes and returns the smallest present cell, or `None` if the set is
    /// empty (leaving it unchanged).
    pub(crate) fn pop(&mut self) -> (r: Option<Square>)
        requires
            old(self).wf(),
        ensures
            final(self).wf(),
            r is None ==> *final(self) == *old(self) && old(self).to_set() == Set::<int>::empty(),
            r matches Some(sq) ==> {
                &&& old(self).has(sq.spec_get() as int)
                &&& final(self).to_set() == old(self).to_set().remove(sq.spec_get() as int)
                &&& final(self).card() == old(self).card() - 1
                &&& forall|i: int| old(self).has(i) ==> sq.spec_get() <= i
            },
    {
        let m = self.m;
        let mut j: u8 = 0;
        while j < 81
            invariant
                j <= 81,
                m == self.m,
                self == old(self),
                self.wf(),
                forall|t: u128| t < j ==> !nth(m, t),
            decreases 81 - j,
        {
            if (m >> (j as u128)) & 1 == 1 {
                let sq = Square::new_unchecked(j);
                let ghost m0 = self.m;
                self.m = m & !(1u128 << (j as u128));
                proof {
                    lemma_low_ops(m0, j as u128);
                    assert forall|i: int|
                        self.to_set().contains(i) == old(self).to_set().remove(
                            j as int,
                        ).contains(i) by {
                        if 0 <= i < 81 {
                            lemma_and_not_bit(m0, j as u128, i as u128);
                        }
                    }
                    assert(self.to_set() =~= old(self).to_set().remove(j as int));
                    old(self).lemma_finite();
                    vstd::set::axiom_set_remove_len(old(self).to_set(), j as int);
                    assert forall|i: int| old(self).has(i) implies j as int <= i by {
                        if i < j as int {
                            assert(!nth(m, i as u128));
                        }
                    }
                }
                return Some(sq);
            }
            j = j + 1;
        }
        proof {
            assert(forall|t: u128| t < 81 ==> !nth(m, t));
            lemma_all_clear_zero(m);
            assert forall|i: int| !(self.has(i)) by {
                if 0 <= i < 81 {
                    let t = i as u128;
                    assert((0u128 >> t) & 1 != 1) by (bit_vector);
                }
            }
            assert(self.to_set() =~= Set::<int>::empty());
        }
        None
    }

    /// All present cells, ascending.
    pub(crate) fn to_vec(self) -> (r: Vec<Square>)
        requires
            self.wf(),
        ensures
            r@.len() == self.card(),
            forall|k: int| 0 <= k < r@.len() ==> self.has(#[trigger] r@[k].spec_get() as int),
            forall|k1: int, k2: int|
                0 <= k1 < k2 < r@.len() ==> r@[k1].spec_get() < r@[k2].spec_get(),
            forall|i: int|
                self.has(i) ==> exists|k: int| 0 <= k < r@.len() && #[trigger] r@[k].spec_get() as int == i,
    {
        let mut rest = self;
        let mut out: Vec<Square> = Vec::new();
        proof {
            self.lemma_finite();
        }
        while !rest.is_zero()
            invariant
                rest.wf(),
                out@.len() + rest.card() == self.card(),
                forall|k: int| 0 <= k < out@.len() ==> self.has(#[trigger] out@[k].spec_get() as int),
                forall|i: int|
                    self.has(i) ==> rest.has(i) || exists|k: int|
                        0 <= k < out@.len() && #[trigger] out@[k].spec_get() as int == i,
                forall|i: int| rest.has(i) ==> self.has(i),
                forall|k: int, i: int|
                    #![trigger out@[k].spec_get(), rest.has(i)]
                    0 <= k < out@.len() && rest.has(i) ==> out@[k].spec_get() < i,
                forall|k1: int, k2: int|
                    0 <= k1 < k2 < out@.len() ==> out@[k1].spec_get() < out@[k2].spec_get(),
            decreases rest.card(),
        {
            let ghost rest0 = rest;
            let ghost out0 = out@;
            let sqo = rest.pop();
            let sq = sqo.unwrap();
            proof {
                use_type_invariant(sq);
                assert(rest0.has(sq.spec_get() as int));
            }
            out.push(sq);
            proof {
                let s = sq.spec_get() as int;
                assert(out@ == out0.push(sq));
                assert(out@[out0.len() as int] == sq);
                assert(rest.to_set() == rest0.to_set().remove(s));
                assert forall|i: int|
                    self.has(i) implies rest.has(i) || exists|k: int|
                    0 <= k < out@.len() && #[trigger] out@[k].spec_get() as int == i by {
                    if !rest.has(i) {
                        assert(!rest.to_set().contains(i));
                        if i == s {
                            assert(out@[out0.len() as int].spec_get() as int == i);
                        } else if rest0.has(i) {
                            assert(rest0.to_set().contains(i));
                            assert(rest.to_set().contains(i));
                        } else {
                            if !(exists|k: int|
                                0 <= k < out0.len() && #[trigger] out0[k].spec_get() as int == i) {
                                assert(!self.has(i));
                            } else {
                                let k = choose|k: int|
                                    0 <= k < out0.len() && #[trigger] out0[k].spec_get() as int
                                        == i;
                                assert(out@[k].spec_get() as int == i);
                            }
                        }
                    }
                }
                assert forall|i: int| rest.has(i) implies self.has(i) by {
                    assert(rest.to_set().contains(i));
                    assert(rest0.to_set().contains(i));
                    assert(rest0.has(i));
                }
                assert forall|k: int, i: int|
                    #![trigger out@[k].spec_get(), rest.has(i)]
                    0 <= k < out@.len() && rest.has(i) implies out@[k].spec_get() < i by {
                    assert(rest.to_set().contains(i));
                    assert(rest0.to_set().contains(i));
                    assert(rest0.has(i));
                    assert(i != s);
                    assert(sq.spec_get() <= i);
                    if k < out0.len() {
                        assert(out0[k].spec_get() < i);
                        assert(out@[k] == out0[k]);
                    } else {
                        assert(out@[k] == sq);
                    }
                }
            }
        }
        proof {
            assert(rest.to_set() == Set::<int>::empty());
            assert forall|i: int| self.has(i) implies exists|k: int|
                0 <= k < out@.len() && #[trigger] out@[k].spec_get() as int == i by {
                assert(!rest.to_set().contains(i));
                assert(!rest.has(i));
            }
        }
        out
    }
}

} // verus!
