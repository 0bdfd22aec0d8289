//! A clause over variables `1..=nv`: two equal bit-vector halves sharing
//! one word block, the first half holding the variables that occur
//! positively, the second those that occur negatively.  A literal is a
//! signed nonzero integer; `l > 0` asserts variable `l`, `l < 0` negates
//! variable `-l`.

use vstd::prelude::*;

use crate::bits::bit64;
use crate::bits::card_words;
use crate::bitvec::lemma_join_index;
use crate::bitvec::lemma_split_index;
use crate::bitvec::BitVec;

verus! {

/// Highest variable count a clause can carry; keeps every bit index and
/// population count well inside `usize` range.
pub const VAR_LIMIT: usize = 0x100_0000;

/// Words needed for `n` bits.
pub open spec fn blocks64(n: int) -> int {
    (n + 63) / 64
}

/// A literal for a problem over `nv` variables.
pub open spec fn valid_lit(l: int, nv: int) -> bool {
    l != 0 && -nv <= l <= nv
}

pub proof fn lemma_blocks_bound(n: int)
    requires
        0 <= n,
    ensures
        n <= 64 * blocks64(n) <= n + 63,
        0 <= blocks64(n),
{
    assert(n <= 64 * ((n + 63) / 64) <= n + 63 && 0 <= (n + 63) / 64) by (nonlinear_arith)
        requires
            0 <= n,
    ;
}

/// Division of an offset index shifted by whole words.
pub proof fn lemma_offset_div(h: int, x: int)
    requires
        0 <= h,
        0 <= x,
    ensures
        (64 * h + x) / 64 == h + x / 64,
        (64 * h + x) % 64 == x % 64,
{
    assert((64 * h + x) / 64 == h + x / 64 && (64 * h + x) % 64 == x % 64) by (nonlinear_arith)
        requires
            0 <= h,
            0 <= x,
    ;
}

pub fn blocks_needed(vrs: usize) -> (r: usize)
    requires
        vrs <= VAR_LIMIT,
    ensures
        r == blocks64(vrs as int),
        r <= VAR_LIMIT / 64 + 1,
{
    (vrs + 63) / 64
}

#[verifier::ext_equal]
pub struct Clause {
    pub nv: usize,
    pub bits: BitVec,
}

impl Clause {
    /// Words in each half.
    pub open spec fn half(self) -> int {
        blocks64(self.nv as int)
    }

    /// Variable `v` occurs positively.
    pub open spec fn posb(self, v: int) -> bool {
        1 <= v <= 64 * self.half() && self.bits.bitat(v - 1)
    }

    /// Variable `v` occurs negatively.
    pub open spec fn negb(self, v: int) -> bool {
        1 <= v <= 64 * self.half() && self.bits.bitat(64 * self.half() + v - 1)
    }

    /// Literal `l` occurs.
    pub open spec fn lit_in(self, l: int) -> bool {
        if l >= 0 {
            self.posb(l)
        } else {
            self.negb(-l)
        }
    }

    /// The clause as a set of literals.
    pub open spec fn lits(self) -> Set<int> {
        Set::new(|l: int| self.lit_in(l))
    }

    /// Cardinality: the number of literals (set bits).
    pub open spec fn cardc(self) -> nat {
        card_words(self.bits.words@)
    }

    /// Some variable occurs in both polarities.
    pub open spec fn tautc(self) -> bool {
        exists|v: int| self.posb(v) && self.negb(v)
    }

    /// Well-formed: the storage is two halves wide enough for `nv`
    /// variables, and no bit beyond variable `nv` is set.
    pub open spec fn wf(self) -> bool {
        &&& self.nv <= VAR_LIMIT
        &&& self.bits.words@.len() == 2 * self.half()
        &&& forall|v: int| #[trigger] self.posb(v) ==> v <= self.nv
        &&& forall|v: int| #[trigger] self.negb(v) ==> v <= self.nv
    }

    /// Both halves speak of the same variables as another clause.
    pub open spec fn same_shape(self, other: Clause) -> bool {
        self.nv == other.nv && self.bits.words@.len() == other.bits.words@.len()
    }

    /// The empty clause over `vrs` variables.
    pub fn new(vrs: usize) -> (r: Clause)
        requires
            vrs <= VAR_LIMIT,
        ensures
            r.wf(),
            r.nv == vrs,
            forall|l: int| !r.lit_in(l),
            r.cardc() == 0,
    {
        let blocks = blocks_needed(vrs);
        let bits = BitVec::new(2 * blocks);
        Clause { nv: vrs, bits }
    }

    /// A fresh empty clause of the same shape.
    pub fn create_sibling(&self) -> (r: Clause)
        requires
            self.wf(),
        ensures
            r.wf(),
            r.nv == self.nv,
            r.same_shape(*self),
            forall|l: int| !r.lit_in(l),
            r.cardc() == 0,
    {
        Clause::new(self.nv)
    }

    /// An exact copy: the same variable count over the same bits.
    pub fn duplicate(&self) -> (r: Clause)
        ensures
            r.nv == self.nv,
            r.bits.words@ == self.bits.words@,
    {
        Clause { nv: self.nv, bits: self.bits.duplicate() }
    }

    /// Number of literals.
    pub fn len(&self) -> (c: usize)
        requires
            self.wf(),
        ensures
            c == self.cardc(),
    {
        proof {
            lemma_blocks_bound(self.nv as int);
        }
        self.bits.ones()
    }

    /// True when no literal occurs.
    pub fn is_null(&self) -> (r: bool)
        requires
            self.wf(),
        ensures
            r == (forall|l: int| !self.lit_in(l)),
    {
        let r = self.bits.is_null();
        proof {
            if r {
                assert forall|l: int| !self.lit_in(l) by {}
            } else {
                let k = choose|k: int| self.bits.bitat(k);
                assert(0 <= k < 64 * self.bits.words@.len());
                if k < 64 * self.half() {
                    assert(self.posb(k + 1));
                    assert(self.lit_in(k + 1));
                } else {
                    let v = k - 64 * self.half() + 1;
                    assert(self.negb(v));
                    assert(self.lit_in(-v));
                }
            }
        }
        r
    }

    /// Clears every literal.
    pub fn clear_all(&mut self)
        requires
            old(self).wf(),
        ensures
            final(self).wf(),
            final(self).nv == old(self).nv,
            forall|l: int| !final(self).lit_in(l),
            final(self).cardc() == 0,
    {
        self.bits.clear_bits();
    }

    /// The storage index of literal `l`.
    pub open spec fn lit_index(self, l: int) -> int {
        if l > 0 {
            l - 1
        } else {
            64 * self.half() + (-l) - 1
        }
    }

    proof fn lemma_lit_index(self, l: int)
        requires
            self.wf(),
            valid_lit(l, self.nv as int),
        ensures
            0 <= self.lit_index(l) < 64 * self.bits.words@.len(),
            self.lit_in(l) == self.bits.bitat(self.lit_index(l)),
            forall|m: int|
                valid_lit(m, self.nv as int) ==> ((#[trigger] self.lit_index(m) == self.lit_index(
                    l,
                )) <==> m == l),
    {
        lemma_blocks_bound(self.nv as int);
    }

    /// Setting one literal's bit touches no other literal, and keeps the
    /// clause well-formed.
    proof fn lemma_lit_set_frame(pre: Clause, post: Clause, l: int)
        requires
            pre.wf(),
            valid_lit(l, pre.nv as int),
            post.nv == pre.nv,
            post.bits.words@.len() == pre.bits.words@.len(),
            forall|k: int| post.bits.bitat(k) == (k == pre.lit_index(l) || pre.bits.bitat(k)),
        ensures
            post.wf(),
            forall|m: int| post.lit_in(m) == (m == l || pre.lit_in(m)),
    {
        lemma_blocks_bound(pre.nv as int);
        let h = pre.half();
        let i = pre.lit_index(l);
        assert forall|m: int| post.lit_in(m) == (m == l || pre.lit_in(m)) by {
            if m > 0 {
                if 1 <= m <= 64 * h {
                    assert(post.bits.bitat(m - 1) == (m - 1 == i || pre.bits.bitat(m - 1)));
                    if l < 0 {
                        assert(i >= 64 * h);
                    }
                } else {
                    assert(!post.posb(m) && !pre.posb(m));
                }
            } else if m < 0 {
                let v = -m;
                if 1 <= v <= 64 * h {
                    assert(post.bits.bitat(64 * h + v - 1) == (64 * h + v - 1 == i
                        || pre.bits.bitat(64 * h + v - 1)));
                    if l > 0 {
                        assert(i == l - 1 < 64 * h);
                    }
                } else {
                    assert(!post.negb(v) && !pre.negb(v));
                }
            } else {
                assert(!post.lit_in(0) && !pre.lit_in(0));
            }
        }
        assert forall|v: int| #[trigger] post.posb(v) implies v <= post.nv by {
            assert(v > 0);
            assert(post.lit_in(v) == (v == l || pre.lit_in(v)));
            if v != l {
                assert(pre.posb(v));
            }
        }
        assert forall|v: int| #[trigger] post.negb(v) implies v <= post.nv by {
            assert(v > 0);
            assert(post.lit_in(-v) == (-v == l || pre.lit_in(-v)));
            if -v != l {
                assert(pre.negb(v));
            }
        }
    }

    /// Clearing one literal's bit touches no other literal, and keeps
    /// the clause well-formed.
    proof fn lemma_lit_unset_frame(pre: Clause, post: Clause, l: int)
        requires
            pre.wf(),
            valid_lit(l, pre.nv as int),
            post.nv == pre.nv,
            post.bits.words@.len() == pre.bits.words@.len(),
            forall|k: int| post.bits.bitat(k) == (k != pre.lit_index(l) && pre.bits.bitat(k)),
        ensures
            post.wf(),
            forall|m: int| post.lit_in(m) == (m != l && pre.lit_in(m)),
    {
        lemma_blocks_bound(pre.nv as int);
        let h = pre.half();
        let i = pre.lit_index(l);
        assert forall|m: int| post.lit_in(m) == (m != l && pre.lit_in(m)) by {
            if m > 0 {
                if 1 <= m <= 64 * h {
                    assert(post.bits.bitat(m - 1) == (m - 1 != i && pre.bits.bitat(m - 1)));
                    if l < 0 {
                        assert(i >= 64 * h);
                    }
                } else {
                    assert(!post.posb(m) && !pre.posb(m));
                }
            } else if m < 0 {
                let v = -m;
                if 1 <= v <= 64 * h {
                    assert(post.bits.bitat(64 * h + v - 1) == (64 * h + v - 1 != i
                        && pre.bits.bitat(64 * h + v - 1)));
                    if l > 0 {
                        assert(i == l - 1 < 64 * h);
                    }
                } else {
                    assert(!post.negb(v) && !pre.negb(v));
                }
            } else {
                assert(!post.lit_in(0) && !pre.lit_in(0));
            }
        }
        assert forall|v: int| #[trigger] post.posb(v) implies v <= post.nv by {
            assert(post.lit_in(v) == (v != l && pre.lit_in(v)));
            assert(pre.posb(v));
        }
        assert forall|v: int| #[trigger] post.negb(v) implies v <= post.nv by {
            assert(post.lit_in(-v) == (-v != l && pre.lit_in(-v)));
            assert(pre.negb(v));
        }
    }

    /// Reads literal `l`.
    pub fn read_literal(&self, l: isize) -> (r: bool)
        requires
            self.wf(),
            valid_lit(l as int, self.nv as int),
        ensures
            r == self.lit_in(l as int),
    {
        proof {
            self.lemma_lit_index(l as int);
            lemma_blocks_bound(self.nv as int);
        }
        let half = self.bits.words.len() / 2;
        if l > 0 {
            self.bits.read_bit((l as usize) - 1)
        } else {
            self.bits.read_bit(64 * half + ((-l) as usize) - 1)
        }
    }

    /// Sets literal `l`.
    pub fn set_literal(&mut self, l: isize)
        requires
            old(self).wf(),
            valid_lit(l as int, old(self).nv as int),
        ensures
            final(self).wf(),
            final(self).nv == old(self).nv,
            final(self).same_shape(*old(self)),
            forall|m: int| final(self).lit_in(m) == (m == l as int || old(self).lit_in(m)),
            final(self).cardc() == old(self).cardc() + (if old(self).lit_in(l as int) {
                0nat
            } else {
                1nat
            }),
    {
        proof {
            self.lemma_lit_index(l as int);
            lemma_blocks_bound(self.nv as int);
        }
        let half = self.bits.words.len() / 2;
        let i: usize = if l > 0 {
            (l as usize) - 1
        } else {
            64 * half + ((-l) as usize) - 1
        };
        self.bits.set_bit(i);
        proof {
            assert(i as int == old(self).lit_index(l as int));
            Clause::lemma_lit_set_frame(*old(self), *self, l as int);
        }
    }

    /// Unsets literal `l`.
    pub fn unset_literal(&mut self, l: isize)
        requires
            old(self).wf(),
            valid_lit(l as int, old(self).nv as int),
        ensures
            final(self).wf(),
            final(self).nv == old(self).nv,
            final(self).same_shape(*old(self)),
            forall|m: int| final(self).lit_in(m) == (m != l as int && old(self).lit_in(m)),
            old(self).cardc() == final(self).cardc() + (if old(self).lit_in(l as int) {
                1nat
            } else {
                0nat
            }),
    {
        proof {
            self.lemma_lit_index(l as int);
            lemma_blocks_bound(self.nv as int);
        }
        let half = self.bits.words.len() / 2;
        let i: usize = if l > 0 {
            (l as usize) - 1
        } else {
            64 * half + ((-l) as usize) - 1
        };
        self.bits.unset_bit(i);
        proof {
            assert(i as int == old(self).lit_index(l as int));
            Clause::lemma_lit_unset_frame(*old(self), *self, l as int);
        }
    }

    /// A variable occurring in either polarity.
    pub open spec fn varb(self, v: int) -> bool {
        self.posb(v) || self.negb(v)
    }

    /// In-place union with another clause of the same shape.
    pub fn union_in(&mut self, rhs: &Clause)
        requires
            old(self).wf(),
            rhs.wf(),
            old(self).nv == rhs.nv,
        ensures
            final(self).wf(),
            final(self).nv == old(self).nv,
            final(self).same_shape(*old(self)),
            forall|m: int|
                #![trigger old(self).lit_in(m)]
                #![trigger final(self).lit_in(m)]
                final(self).lit_in(m) == (old(self).lit_in(m) || rhs.lit_in(m)),
    {
        self.bits.or_in(&rhs.bits);
        proof {
            assert forall|m: int|
                #![trigger old(self).lit_in(m)]
                self.lit_in(m) == (old(self).lit_in(m) || rhs.lit_in(m)) by {
                let h = old(self).half();
                if m > 0 && 1 <= m <= 64 * h {
                    assert(self.bits.bitat(m - 1) == (old(self).bits.bitat(m - 1)
                        || rhs.bits.bitat(m - 1)));
                } else if m < 0 && 1 <= -m <= 64 * h {
                    assert(self.bits.bitat(64 * h + (-m) - 1) == (old(self).bits.bitat(
                        64 * h + (-m) - 1,
                    ) || rhs.bits.bitat(64 * h + (-m) - 1)));
                }
            }
            assert forall|v: int| #[trigger] self.posb(v) implies v <= self.nv by {
                assert(self.lit_in(v) == (old(self).lit_in(v) || rhs.lit_in(v)));
            }
            assert forall|v: int| #[trigger] self.negb(v) implies v <= self.nv by {
                assert(self.lit_in(-v) == (old(self).lit_in(-v) || rhs.lit_in(-v)));
            }
        }
    }

    /// In-place difference: drops every literal of `rhs`.
    pub fn difference_in(&mut self, rhs: &Clause)
        requires
            old(self).wf(),
            rhs.wf(),
            old(self).nv == rhs.nv,
        ensures
            final(self).wf(),
            final(self).nv == old(self).nv,
            final(self).same_shape(*old(self)),
            forall|m: int|
                #![trigger old(self).lit_in(m)]
                #![trigger final(self).lit_in(m)]
                final(self).lit_in(m) == (old(self).lit_in(m) && !rhs.lit_in(m)),
    {
        self.bits.diff_in(&rhs.bits);
        proof {
            assert forall|m: int|
                #![trigger old(self).lit_in(m)]
                self.lit_in(m) == (old(self).lit_in(m) && !rhs.lit_in(m)) by {
                let h = old(self).half();
                if m > 0 && 1 <= m <= 64 * h {
                    assert(self.bits.bitat(m - 1) == (old(self).bits.bitat(m - 1)
                        && !rhs.bits.bitat(m - 1)));
                } else if m < 0 && 1 <= -m <= 64 * h {
                    assert(self.bits.bitat(64 * h + (-m) - 1) == (old(self).bits.bitat(
                        64 * h + (-m) - 1,
                    ) && !rhs.bits.bitat(64 * h + (-m) - 1)));
                }
            }
            assert forall|v: int| #[trigger] self.posb(v) implies v <= self.nv by {
                assert(self.lit_in(v) == (old(self).lit_in(v) && !rhs.lit_in(v)));
            }
            assert forall|v: int| #[trigger] self.negb(v) implies v <= self.nv by {
                assert(self.lit_in(-v) == (old(self).lit_in(-v) && !rhs.lit_in(-v)));
            }
        }
    }

    /// Do all literals of `self` stand in `rhs`?
    pub fn subset_of(&self, rhs: &Clause) -> (r: bool)
        requires
            self.wf(),
            rhs.wf(),
            self.nv == rhs.nv,
        ensures
            r == (forall|m: int| self.lit_in(m) ==> rhs.lit_in(m)),
    {
        let r = self.bits.subset_of(&rhs.bits);
        proof {
            let h = self.half();
            if r {
                assert forall|m: int| self.lit_in(m) implies rhs.lit_in(m) by {
                    if m > 0 {
                        assert(self.bits.bitat(m - 1) ==> rhs.bits.bitat(m - 1));
                    } else if m < 0 {
                        assert(self.bits.bitat(64 * h + (-m) - 1) ==> rhs.bits.bitat(
                            64 * h + (-m) - 1,
                        ));
                    }
                }
            } else {
                let k = choose|k: int| self.bits.bitat(k) && !rhs.bits.bitat(k);
                if k < 64 * h {
                    assert(self.posb(k + 1) && !rhs.posb(k + 1));
                    assert(self.lit_in(k + 1) && !rhs.lit_in(k + 1));
                } else {
                    let v = k - 64 * h + 1;
                    assert(self.negb(v) && !rhs.negb(v));
                    assert(self.lit_in(-v) && !rhs.lit_in(-v));
                }
            }
        }
        r
    }

    /// Do `self` and `rhs` share no literal?
    pub fn disjoint(&self, rhs: &Clause) -> (r: bool)
        requires
            self.wf(),
            rhs.wf(),
            self.nv == rhs.nv,
        ensures
            r == (forall|m: int| !(self.lit_in(m) && rhs.lit_in(m))),
    {
        let r = self.bits.disjoint(&rhs.bits);
        proof {
            let h = self.half();
            if r {
                assert forall|m: int| !(self.lit_in(m) && rhs.lit_in(m)) by {
                    if m > 0 {
                        assert(!(self.bits.bitat(m - 1) && rhs.bits.bitat(m - 1)));
                    } else if m < 0 {
                        assert(!(self.bits.bitat(64 * h + (-m) - 1) && rhs.bits.bitat(
                            64 * h + (-m) - 1,
                        )));
                    }
                }
            } else {
                let k = choose|k: int| self.bits.bitat(k) && rhs.bits.bitat(k);
                if k < 64 * h {
                    assert(self.lit_in(k + 1) && rhs.lit_in(k + 1));
                } else {
                    let v = k - 64 * h + 1;
                    assert(self.lit_in(-v) && rhs.lit_in(-v));
                }
            }
        }
        r
    }

    /// True when no variable occurs in both polarities.
    pub fn disjoint_switched_self(&self) -> (r: bool)
        requires
            self.wf(),
        ensures
            r == !self.tautc(),
    {
        proof {
            lemma_blocks_bound(self.nv as int);
        }
        let half = self.bits.words.len() / 2;
        let mut i: usize = 0;
        while i < half
            invariant
                self.wf(),
                half == self.half(),
                i <= half,
                forall|w: int|
                    0 <= w < i ==> #[trigger] self.bits.words@[w] & self.bits.words@[half + w]
                        == 0,
            decreases half - i,
        {
            let d: u64 = self.bits.words[i] & self.bits.words[half + i];
            if d != 0 {
                proof {
                    let j = crate::bits::lemma_nonzero_bit(d);
                    crate::bits::lemma_bit_and(
                        self.bits.words@[i as int],
                        self.bits.words@[half as int + i as int],
                    );
                    lemma_join_index(i as int, j as int, half as int);
                    lemma_join_index(half as int + i as int, j as int, 2 * half as int);
                    let v = 64 * (i as int) + j + 1;
                    assert(self.bits.bitat(v - 1));
                    assert(64 * (half as int + i as int) + j == 64 * (half as int) + v - 1);
                    assert(self.bits.bitat(64 * (half as int) + v - 1));
                    assert(self.posb(v) && self.negb(v));
                }
                return false;
            }
            i = i + 1;
        }
        proof {
            assert forall|v: int| !(self.posb(v) && self.negb(v)) by {
                if self.posb(v) && self.negb(v) {
                    lemma_split_index(v - 1, half as int);
                    let w0 = (v - 1) / 64;
                    let o = (v - 1) % 64;
                    lemma_offset_div(half as int, v - 1);
                    assert(bit64(self.bits.words@[w0], o as u64));
                    assert(bit64(self.bits.words@[half as int + w0], o as u64));
                    crate::bits::lemma_word_disjoint(
                        self.bits.words@[w0],
                        self.bits.words@[half as int + w0],
                    );
                }
            }
        }
        true
    }

    /// True when some variable occurs in both polarities.
    pub fn tautologous(&self) -> (r: bool)
        requires
            self.wf(),
        ensures
            r == self.tautc(),
    {
        !self.disjoint_switched_self()
    }

    /// Keeps of each half only the variables pure in it:
    /// `pos <- pos & !neg` and `neg <- neg & !pos`, pointwise.
    pub fn difference_switched_self(&mut self)
        requires
            old(self).wf(),
        ensures
            final(self).wf(),
            final(self).nv == old(self).nv,
            final(self).same_shape(*old(self)),
            forall|v: int|
                #[trigger] final(self).posb(v) == (old(self).posb(v) && !old(self).negb(v)),
            forall|v: int|
                #[trigger] final(self).negb(v) == (old(self).negb(v) && !old(self).posb(v)),
    {
        proof {
            lemma_blocks_bound(self.nv as int);
        }
        let half = self.bits.words.len() / 2;
        let mut i: usize = 0;
        while i < half
            invariant
                half == old(self).half(),
                self.nv == old(self).nv,
                self.bits.words@.len() == old(self).bits.words@.len(),
                old(self).bits.words@.len() == 2 * half,
                i <= half,
                forall|w: int|
                    0 <= w < i ==> self.bits.words@[w] == (old(self).bits.words@[w] & !old(
                        self,
                    ).bits.words@[half + w]),
                forall|w: int|
                    0 <= w < i ==> #[trigger] self.bits.words@[half + w] == (old(
                        self,
                    ).bits.words@[half + w] & !old(self).bits.words@[w]),
                forall|w: int|
                    i <= w < half ==> #[trigger] self.bits.words@[w] == old(self).bits.words@[w],
                forall|w: int|
                    i <= w < half ==> #[trigger] self.bits.words@[half + w] == old(
                        self,
                    ).bits.words@[half + w],
            decreases half - i,
        {
            let p: u64 = self.bits.words[i];
            let q: u64 = self.bits.words[half + i];
            self.bits.words[i] = p & !q;
            self.bits.words[half + i] = q & !p;
            i = i + 1;
        }
        proof {
            assert forall|v: int|
                #[trigger] self.posb(v) == (old(self).posb(v) && !old(self).negb(v)) by {
                if 1 <= v <= 64 * (half as int) {
                    lemma_split_index(v - 1, half as int);
                    lemma_offset_div(half as int, v - 1);
                    let w0 = (v - 1) / 64;
                    let o = ((v - 1) % 64) as u64;
                    crate::bits::lemma_bit_diff(
                        old(self).bits.words@[w0],
                        old(self).bits.words@[half as int + w0],
                    );
                }
            }
            assert forall|v: int|
                #[trigger] self.negb(v) == (old(self).negb(v) && !old(self).posb(v)) by {
                if 1 <= v <= 64 * (half as int) {
                    lemma_split_index(v - 1, half as int);
                    lemma_offset_div(half as int, v - 1);
                    let w0 = (v - 1) / 64;
                    let o = ((v - 1) % 64) as u64;
                    crate::bits::lemma_bit_diff(
                        old(self).bits.words@[half as int + w0],
                        old(self).bits.words@[w0],
                    );
                }
            }
            assert forall|v: int| #[trigger] self.posb(v) implies v <= self.nv by {
                assert(old(self).posb(v));
            }
            assert forall|v: int| #[trigger] self.negb(v) implies v <= self.nv by {
                assert(old(self).negb(v));
            }
        }
    }

    /// Swaps the two halves: every literal is replaced by its complement.
    pub fn flip_polarity(&mut self)
        requires
            old(self).wf(),
        ensures
            final(self).wf(),
            final(self).nv == old(self).nv,
            final(self).same_shape(*old(self)),
            forall|v: int| #[trigger] final(self).posb(v) == old(self).negb(v),
            forall|v: int| #[trigger] final(self).negb(v) == old(self).posb(v),
    {
        proof {
            lemma_blocks_bound(self.nv as int);
        }
        let half = self.bits.words.len() / 2;
        let mut i: usize = 0;
        while i < half
            invariant
                half == old(self).half(),
                self.nv == old(self).nv,
                self.bits.words@.len() == old(self).bits.words@.len(),
                old(self).bits.words@.len() == 2 * half,
                i <= half,
                forall|w: int|
                    0 <= w < i ==> #[trigger] self.bits.words@[w] == old(self).bits.words@[half
                        + w],
                forall|w: int|
                    0 <= w < i ==> #[trigger] self.bits.words@[half + w] == old(
                        self,
                    ).bits.words@[w],
                forall|w: int|
                    i <= w < half ==> #[trigger] self.bits.words@[w] == old(self).bits.words@[w],
                forall|w: int|
                    i <= w < half ==> #[trigger] self.bits.words@[half + w] == old(
                        self,
                    ).bits.words@[half + w],
            decreases half - i,
        {
            let p: u64 = self.bits.words[i];
            let q: u64 = self.bits.words[half + i];
            self.bits.words[i] = q;
            self.bits.words[half + i] = p;
            i = i + 1;
        }
        proof {
            assert forall|v: int| #[trigger] self.posb(v) == old(self).negb(v) by {
                if 1 <= v <= 64 * (half as int) {
                    lemma_split_index(v - 1, half as int);
                    lemma_offset_div(half as int, v - 1);
                }
            }
            assert forall|v: int| #[trigger] self.negb(v) == old(self).posb(v) by {
                if 1 <= v <= 64 * (half as int) {
                    lemma_split_index(v - 1, half as int);
                    lemma_offset_div(half as int, v - 1);
                }
            }
            assert forall|v: int| #[trigger] self.posb(v) implies v <= self.nv by {
                assert(old(self).negb(v));
            }
            assert forall|v: int| #[trigger] self.negb(v) implies v <= self.nv by {
                assert(old(self).posb(v));
            }
        }
    }

    /// The footprint: one bit per variable that occurs in either polarity.
    pub fn variables(&self) -> (r: BitVec)
        requires
            self.wf(),
        ensures
            r.words@.len() == self.half(),
            forall|k: int| #[trigger] r.bitat(k) == self.varb(k + 1),
    {
        proof {
            lemma_blocks_bound(self.nv as int);
        }
        let half = self.bits.words.len() / 2;
        let mut words: Vec<u64> = Vec::new();
        let mut i: usize = 0;
        while i < half
            invariant
                self.wf(),
                half == self.half(),
                i <= half,
                words@.len() == i,
                forall|w: int|
                    0 <= w < i ==> words@[w] == (self.bits.words@[w] | self.bits.words@[half + w]),
            decreases half - i,
        {
            words.push(self.bits.words[i] | self.bits.words[half + i]);
            i = i + 1;
        }
        let r = BitVec { words };
        proof {
            assert forall|k: int| #[trigger] r.bitat(k) == self.varb(k + 1) by {
                if 0 <= k < 64 * (half as int) {
                    lemma_split_index(k, half as int);
                    lemma_offset_div(half as int, k);
                    crate::bits::lemma_bit_or(
                        self.bits.words@[k / 64],
                        self.bits.words@[half as int + k / 64],
                    );
                    assert(64 * (half as int) + (k + 1) - 1 == 64 * (half as int) + k);
                } else {
                    assert(!r.bitat(k));
                    assert(!self.posb(k + 1) && !self.negb(k + 1));
                }
            }
        }
        r
    }

    /// Unions this clause's footprint into `fp`.
    pub fn enrich_variables(&self, fp: &mut BitVec)
        requires
            self.wf(),
            old(fp).words@.len() == self.half(),
        ensures
            final(fp).words@.len() == old(fp).words@.len(),
            forall|k: int| #[trigger] final(fp).bitat(k) == (old(fp).bitat(k) || self.varb(k + 1)),
    {
        proof {
            lemma_blocks_bound(self.nv as int);
        }
        let half = self.bits.words.len() / 2;
        let mut i: usize = 0;
        while i < half
            invariant
                self.wf(),
                half == self.half(),
                fp.words@.len() == half,
                i <= half,
                forall|w: int|
                    0 <= w < i ==> fp.words@[w] == (old(fp).words@[w] | (self.bits.words@[w]
                        | self.bits.words@[half + w])),
                forall|w: int| i <= w < half ==> fp.words@[w] == old(fp).words@[w],
            decreases half - i,
        {
            let word: u64 = fp.words[i];
            fp.words[i] = word | (self.bits.words[i] | self.bits.words[half + i]);
            i = i + 1;
        }
        proof {
            assert forall|k: int|
                #[trigger] fp.bitat(k) == (old(fp).bitat(k) || self.varb(k + 1)) by {
                if 0 <= k < 64 * (half as int) {
                    lemma_split_index(k, half as int);
                    lemma_offset_div(half as int, k);
                    crate::bits::lemma_bit_or(
                        self.bits.words@[k / 64],
                        self.bits.words@[half as int + k / 64],
                    );
                    crate::bits::lemma_bit_or(
                        old(fp).words@[k / 64],
                        self.bits.words@[k / 64] | self.bits.words@[half as int + k / 64],
                    );
                    assert(64 * (half as int) + (k + 1) - 1 == 64 * (half as int) + k);
                } else {
                    assert(!fp.bitat(k) && !old(fp).bitat(k));
                    assert(!self.posb(k + 1) && !self.negb(k + 1));
                }
            }
        }
    }

    /// Does this clause touch any variable of the footprint `fp`?
    pub fn has_variables(&self, fp: &BitVec) -> (r: bool)
        requires
            self.wf(),
            fp.words@.len() == self.half(),
        ensures
            r == (exists|k: int| #[trigger] fp.bitat(k) && self.varb(k + 1)),
    {
        proof {
            lemma_blocks_bound(self.nv as int);
        }
        let half = self.bits.words.len() / 2;
        let mut i: usize = 0;
        while i < half
            invariant
                self.wf(),
                half == self.half(),
                fp.words@.len() == half,
                i <= half,
                forall|w: int|
                    0 <= w < i ==> (#[trigger] self.bits.words@[w] | self.bits.words@[half + w])
                        & fp.words@[w] == 0,
            decreases half - i,
        {
            let d: u64 = (self.bits.words[i] | self.bits.words[half + i]) & fp.words[i];
            if d != 0 {
                proof {
                    let j = crate::bits::lemma_nonzero_bit(d);
                    crate::bits::lemma_bit_and(
                        self.bits.words@[i as int] | self.bits.words@[half as int + i as int],
                        fp.words@[i as int],
                    );
                    crate::bits::lemma_bit_or(
                        self.bits.words@[i as int],
                        self.bits.words@[half as int + i as int],
                    );
                    lemma_join_index(i as int, j as int, half as int);
                    lemma_join_index(half as int + i as int, j as int, 2 * half as int);
                    let k = 64 * (i as int) + j;
                    assert(64 * (half as int + i as int) + j == 64 * (half as int) + k);
                    assert(bit64(d, j));
                    assert(bit64(fp.words@[i as int], j));
                    assert(fp.bitat(k));
                    assert(bit64(
                        self.bits.words@[i as int] | self.bits.words@[half as int + i as int],
                        j,
                    ));
                    assert(self.bits.bitat(k) || self.bits.bitat(64 * (half as int) + k));
                    assert(self.varb(k + 1));
                }
                return true;
            }
            i = i + 1;
        }
        proof {
            assert forall|k: int| !(#[trigger] fp.bitat(k) && self.varb(k + 1)) by {
                if 0 <= k < 64 * (half as int) {
                    lemma_split_index(k, half as int);
                    lemma_offset_div(half as int, k);
                    let w0 = k / 64;
                    let o = (k % 64) as u64;
                    crate::bits::lemma_bit_or(
                        self.bits.words@[w0],
                        self.bits.words@[half as int + w0],
                    );
                    crate::bits::lemma_word_disjoint(
                        self.bits.words@[w0] | self.bits.words@[half as int + w0],
                        fp.words@[w0],
                    );
                    assert(64 * (half as int) + (k + 1) - 1 == 64 * (half as int) + k);
                    if fp.bitat(k) && self.varb(k + 1) {
                        assert(bit64(fp.words@[w0], o));
                        if self.posb(k + 1) {
                            assert(bit64(self.bits.words@[w0], o));
                        } else {
                            assert(self.negb(k + 1));
                            assert(self.bits.bitat(64 * (half as int) + k));
                            assert(bit64(self.bits.words@[half as int + w0], o));
                        }
                        assert(bit64(self.bits.words@[w0] | self.bits.words@[half as int + w0], o));
                        assert(false);
                    }
                }
            }
        }
        false
    }

    /// Literal of `self` missing from `other`.
    pub open spec fn diff_lit(self, other: Clause, m: int) -> bool {
        self.lit_in(m) && !other.lit_in(m)
    }

    /// `b` is the literal that self-subsumption may drop from `other`:
    /// `self` differs from `other` by the single literal `-b`, and
    /// `other` carries `b`.
    pub open spec fn sym_gives(self, other: Clause, b: int) -> bool {
        &&& other.lit_in(b)
        &&& self.diff_lit(other, -b)
        &&& forall|m: int| #[trigger] self.diff_lit(other, m) ==> m == -b
    }

    /// No literal can be dropped from `other` on account of `self`.
    pub open spec fn sym_clear(self, other: Clause) -> bool {
        forall|b: int| !self.sym_gives(other, b)
    }

    /// The literal that global bit `g` stands for.
    pub open spec fn glit(self, g: int) -> int {
        if g < 64 * self.half() {
            g + 1
        } else {
            -(g - 64 * self.half() + 1)
        }
    }

    /// A global bit set in `self` and clear in `other` is a difference
    /// literal.
    proof fn lemma_diff_bit_lit(c: Clause, d: Clause, g: int)
        requires
            c.wf(),
            d.wf(),
            c.nv == d.nv,
            c.bits.bitat(g),
            !d.bits.bitat(g),
        ensures
            valid_lit(c.glit(g), c.nv as int),
            c.diff_lit(d, c.glit(g)),
            c.lit_index(c.glit(g)) == g,
    {
        lemma_blocks_bound(c.nv as int);
        let h = c.half();
        if g < 64 * h {
            assert(c.posb(g + 1));
            assert(!d.posb(g + 1));
        } else {
            let v = g - 64 * h + 1;
            assert(c.negb(v));
            assert(!d.negb(v));
        }
    }

    /// Every difference literal sits at a global bit set in `self` and
    /// clear in `other`.
    proof fn lemma_lit_diff_bit(c: Clause, d: Clause, m: int)
        requires
            c.wf(),
            d.wf(),
            c.nv == d.nv,
            c.diff_lit(d, m),
        ensures
            valid_lit(m, c.nv as int),
            0 <= c.lit_index(m) < 64 * c.bits.words@.len(),
            c.bits.bitat(c.lit_index(m)),
            !d.bits.bitat(c.lit_index(m)),
            c.glit(c.lit_index(m)) == m,
    {
        lemma_blocks_bound(c.nv as int);
        assert(c.lit_in(m));
        if m > 0 {
            assert(c.posb(m));
        } else {
            assert(m < 0);
            assert(c.negb(-m));
        }
        c.lemma_lit_index(m);
    }

    /// Detects self-subsumption: when `self` differs from `rhs` by one
    /// single literal whose complement stands in `rhs`, that complement
    /// (the literal `rhs` may drop) is returned.
    pub fn symmetry_in(&self, rhs: &Clause) -> (r: Option<isize>)
        requires
            self.wf(),
            rhs.wf(),
            self.nv == rhs.nv,
        ensures
            r matches Some(b) ==> valid_lit(b as int, self.nv as int) && self.sym_gives(
                *rhs,
                b as int,
            ),
            r is None ==> self.sym_clear(*rhs),
    {
        proof {
            lemma_blocks_bound(self.nv as int);
        }
        let n = self.bits.words.len();
        let half = n / 2;
        let mut i: usize = 0;
        while i < n
            invariant
                self.wf(),
                rhs.wf(),
                self.nv == rhs.nv,
                n == self.bits.words@.len(),
                n == rhs.bits.words@.len(),
                half == self.half(),
                n == 2 * half,
                i <= n,
                forall|w: int|
                    0 <= w < i ==> #[trigger] self.bits.words@[w] & !rhs.bits.words@[w] == 0,
            decreases n - i,
        {
            let d: u64 = self.bits.words[i] & !rhs.bits.words[i];
            if d != 0 {
                let j = crate::bits::lowest_bit(d);
                proof {
                    crate::bits::lemma_bit_diff(
                        self.bits.words@[i as int],
                        rhs.bits.words@[i as int],
                    );
                    lemma_join_index(i as int, j as int, n as int);
                }
                let g1: usize = 64 * i + j as usize;
                proof {
                    assert(self.bits.bitat(g1 as int) && !rhs.bits.bitat(g1 as int));
                    Clause::lemma_diff_bit_lit(*self, *rhs, g1 as int);
                }
                if d & !(1u64 << j) != 0 {
                    // a second difference bit in the same word
                    proof {
                        let d2 = d & !(1u64 << j);
                        let j2 = crate::bits::lemma_nonzero_bit(d2);
                        crate::bits::lemma_bit_unset(d, j);
                        assert(bit64(d, j2) && j2 != j);
                        lemma_join_index(i as int, j2 as int, n as int);
                        let g2 = 64 * (i as int) + j2;
                        assert(self.bits.bitat(g2) && !rhs.bits.bitat(g2));
                        Clause::lemma_diff_bit_lit(*self, *rhs, g2);
                        let m1 = self.glit(g1 as int);
                        let m2 = self.glit(g2);
                        assert(m1 != m2);
                        assert forall|b: int| !self.sym_gives(*rhs, b) by {
                            if self.sym_gives(*rhs, b) {
                                assert(self.diff_lit(*rhs, m1) && self.diff_lit(*rhs, m2));
                                assert(m1 == -b && m2 == -b);
                            }
                        }
                    }
                    return None;
                }
                // bit j is the only difference in word i; the rest of the
                // words must show no difference at all
                let mut t: usize = i + 1;
                while t < n
                    invariant
                        self.wf(),
                        rhs.wf(),
                        self.nv == rhs.nv,
                        n == self.bits.words@.len(),
                        n == rhs.bits.words@.len(),
                        half == self.half(),
                        n == 2 * half,
                        i < n,
                        i + 1 <= t <= n,
                        j < 64,
                        g1 == 64 * i + j,
                        self.bits.bitat(g1 as int),
                        !rhs.bits.bitat(g1 as int),
                        forall|w: int|
                            i < w < t ==> #[trigger] self.bits.words@[w] & !rhs.bits.words@[w]
                                == 0,
                    decreases n - t,
                {
                    let d2: u64 = self.bits.words[t] & !rhs.bits.words[t];
                    if d2 != 0 {
                        proof {
                            let j2 = crate::bits::lemma_nonzero_bit(d2);
                            crate::bits::lemma_bit_diff(
                                self.bits.words@[t as int],
                                rhs.bits.words@[t as int],
                            );
                            lemma_join_index(t as int, j2 as int, n as int);
                            lemma_join_index(i as int, j as int, n as int);
                            let g2 = 64 * (t as int) + j2;
                            assert(self.bits.bitat(g2) && !rhs.bits.bitat(g2));
                            Clause::lemma_diff_bit_lit(*self, *rhs, g2);
                            Clause::lemma_diff_bit_lit(*self, *rhs, g1 as int);
                            let m1 = self.glit(g1 as int);
                            let m2 = self.glit(g2);
                            assert(g1 as int != g2);
                            assert(m1 != m2);
                            assert forall|b: int| !self.sym_gives(*rhs, b) by {
                                if self.sym_gives(*rhs, b) {
                                    assert(self.diff_lit(*rhs, m1) && self.diff_lit(*rhs, m2));
                                    assert(m1 == -b && m2 == -b);
                                }
                            }
                        }
                        return None;
                    }
                    t = t + 1;
                }
                // exactly one difference bit overall, at g1
                proof {
                    assert forall|m: int| #[trigger] self.diff_lit(*rhs, m) implies m == self.glit(
                        g1 as int,
                    ) by {
                        Clause::lemma_lit_diff_bit(*self, *rhs, m);
                        let gm = self.lit_index(m);
                        crate::bitvec::lemma_split_index(gm, n as int);
                        let w = gm / 64;
                        let o = (gm % 64) as u64;
                        crate::bits::lemma_bit_diff(self.bits.words@[w], rhs.bits.words@[w]);
                        assert(bit64(self.bits.words@[w] & !rhs.bits.words@[w], o));
                        if w != i as int {
                            assert(self.bits.words@[w] & !rhs.bits.words@[w] == 0);
                            crate::bits::lemma_bit_zero();
                        }
                        assert(w == i as int);
                        crate::bits::lemma_word_subset(d, 1u64 << j);
                        crate::bits::lemma_bit_single(j);
                        assert(bit64(d, o));
                        assert(o == j);
                        lemma_join_index(i as int, j as int, n as int);
                        assert(gm == g1 as int);
                        assert(self.glit(gm) == m);
                    }
                }
                let b: isize = if i < half {
                    -((g1 + 1) as isize)
                } else {
                    ((g1 - 64 * half) + 1) as isize
                };
                proof {
                    assert(b as int == -self.glit(g1 as int));
                }
                if rhs.read_literal(b) {
                    proof {
                        assert(self.sym_gives(*rhs, b as int));
                    }
                    return Some(b);
                } else {
                    proof {
                        assert forall|c: int| !self.sym_gives(*rhs, c) by {
                            if self.sym_gives(*rhs, c) {
                                assert(self.diff_lit(*rhs, -c));
                                assert(-c == self.glit(g1 as int));
                                assert(rhs.lit_in(c));
                            }
                        }
                    }
                    return None;
                }
            }
            i = i + 1;
        }
        proof {
            assert forall|b: int| !self.sym_gives(*rhs, b) by {
                if self.sym_gives(*rhs, b) {
                    Clause::lemma_lit_diff_bit(*self, *rhs, -b);
                    let gm = self.lit_index(-b);
                    crate::bitvec::lemma_split_index(gm, n as int);
                    let w = gm / 64;
                    let o = (gm % 64) as u64;
                    crate::bits::lemma_bit_diff(self.bits.words@[w], rhs.bits.words@[w]);
                    assert(bit64(self.bits.words@[w] & !rhs.bits.words@[w], o));
                    assert(self.bits.words@[w] & !rhs.bits.words@[w] == 0);
                    crate::bits::lemma_bit_zero();
                }
            }
        }
        None
    }

/// A clause has a positive cardinality exactly when it carries a
    /// literal.
    pub proof fn lemma_card_lit(c: Clause)
        requires
            c.wf(),
        ensures
            (c.cardc() > 0) == (exists|m: int| c.lit_in(m)),
    {
        lemma_blocks_bound(c.nv as int);
        let h = c.half();
        if c.cardc() > 0 {
            let w = crate::bits::lemma_card_words_pos(c.bits.words@);
            let j = crate::bits::lemma_pc_pos_bit(c.bits.words@[w], 64);
            lemma_join_index(w, j as int, c.bits.words@.len() as int);
            let g = 64 * w + j;
            assert(c.bits.bitat(g));
            if g < 64 * h {
                assert(c.posb(g + 1));
                assert(c.lit_in(g + 1));
            } else {
                let v = g - 64 * h + 1;
                assert(c.negb(v));
                assert(c.lit_in(-v));
            }
        } else {
            assert forall|m: int| !c.lit_in(m) by {
                if c.lit_in(m) {
                    let g = if m > 0 {
                        m - 1
                    } else {
                        64 * h + (-m) - 1
                    };
                    assert(c.bits.bitat(g));
                    lemma_split_index(g, c.bits.words@.len() as int);
                    crate::bits::lemma_bit_pc_pos(c.bits.words@[g / 64], (g % 64) as u64);
                    crate::bits::lemma_card_words_lower(c.bits.words@, g / 64);
                }
            }
        }
    }

    /// Whether `a` comes before `b` in the literal enumeration:
    /// positives ascending by variable, then negatives ascending by
    /// variable.
    pub open spec fn lit_precedes(a: int, b: int) -> bool {
        ||| (a > 0 && b > 0 && a < b)
        ||| (a > 0 && b < 0)
        ||| (a < 0 && b < 0 && -a < -b)
    }

    /// Enumerates the literals: each one exactly once, positives first
    /// ascending by variable, then negatives ascending by variable.
    pub fn iter_literals(&self) -> (r: Vec<isize>)
        requires
            self.wf(),
        ensures
            forall|t: int|
                #![trigger r@[t]]
                0 <= t < r@.len() ==> valid_lit(r@[t] as int, self.nv as int) && self.lit_in(
                    r@[t] as int,
                ),
            forall|m: int|
                #[trigger] self.lit_in(m) ==> exists|t: int|
                    0 <= t < r@.len() && r@[t] as int == m,
            forall|t1: int, t2: int|
                #![trigger r@[t1], r@[t2]]
                0 <= t1 < t2 < r@.len() ==> Clause::lit_precedes(r@[t1] as int, r@[t2] as int),
    {
        let mut r: Vec<isize> = Vec::new();
        let mut v: usize = 1;
        while v <= self.nv
            invariant
                self.wf(),
                1 <= v <= self.nv + 1,
                forall|t: int|
                    #![trigger r@[t]]
                    0 <= t < r@.len() ==> 0 < (r@[t] as int) < v && self.lit_in(r@[t] as int),
                forall|m: int|
                    0 < m < v && #[trigger] self.lit_in(m) ==> exists|t: int|
                        0 <= t < r@.len() && r@[t] as int == m,
                forall|t1: int, t2: int|
                    #![trigger r@[t1], r@[t2]]
                    0 <= t1 < t2 < r@.len() ==> (r@[t1] as int) < (r@[t2] as int),
            decreases self.nv + 1 - v,
        {
            let ghost r0 = r@;
            let present = self.read_literal(v as isize);
            if present {
                r.push(v as isize);
            }
            proof {
                assert forall|m: int|
                    0 < m < v + 1 && #[trigger] self.lit_in(m) implies exists|t: int|
                    0 <= t < r@.len() && r@[t] as int == m by {
                    if m == v as int {
                        assert(r@[r@.len() - 1] as int == m);
                    } else {
                        let t0 = choose|t: int| 0 <= t < r0.len() && r0[t] as int == m;
                        assert(r@[t0] as int == m);
                    }
                }
            }
            v = v + 1;
        }
        let ghost plen = r@.len() as int;
        let mut w: usize = 1;
        while w <= self.nv
            invariant
                self.wf(),
                1 <= w <= self.nv + 1,
                0 <= plen <= r@.len(),
                forall|t: int|
                    #![trigger r@[t]]
                    0 <= t < plen ==> 0 < (r@[t] as int) <= self.nv && self.lit_in(r@[t] as int),
                forall|m: int|
                    0 < m <= self.nv && #[trigger] self.lit_in(m) ==> exists|t: int|
                        0 <= t < plen && r@[t] as int == m,
                forall|t: int|
                    #![trigger r@[t]]
                    plen <= t < r@.len() ==> 0 < -(r@[t] as int) < w && self.lit_in(r@[t] as int),
                forall|m: int|
                    0 < -m < w && #[trigger] self.lit_in(m) ==> exists|t: int|
                        plen <= t < r@.len() && r@[t] as int == m,
                forall|t1: int, t2: int|
                    #![trigger r@[t1], r@[t2]]
                    0 <= t1 < t2 < plen ==> (r@[t1] as int) < (r@[t2] as int),
                forall|t1: int, t2: int|
                    #![trigger r@[t1], r@[t2]]
                    plen <= t1 < t2 < r@.len() ==> -(r@[t1] as int) < -(r@[t2] as int),
            decreases self.nv + 1 - w,
        {
            let ghost r0 = r@;
            let present = self.read_literal(-(w as isize));
            if present {
                r.push(-(w as isize));
            }
            proof {
                assert forall|m: int|
                    0 < m <= self.nv && #[trigger] self.lit_in(m) implies exists|t: int|
                    0 <= t < plen && r@[t] as int == m by {
                    let t0 = choose|t: int| 0 <= t < plen && r0[t] as int == m;
                    assert(r@[t0] as int == m);
                }
                assert forall|m: int|
                    0 < -m < w + 1 && #[trigger] self.lit_in(m) implies exists|t: int|
                    plen <= t < r@.len() && r@[t] as int == m by {
                    if m == -(w as int) {
                        assert(r@[r@.len() - 1] as int == m);
                    } else {
                        let t0 = choose|t: int| plen <= t < r0.len() && r0[t] as int == m;
                        assert(r@[t0] as int == m);
                    }
                }
            }
            w = w + 1;
        }
        proof {
            assert forall|m: int| #[trigger] self.lit_in(m) implies exists|t: int|
                0 <= t < r@.len() && r@[t] as int == m by {
                if m > 0 {
                    assert(self.posb(m));
                    assert(0 < m <= self.nv);
                } else {
                    assert(m < 0);
                    assert(self.negb(-m));
                    assert(0 < -m <= self.nv);
                }
            }
        }
        r
    }
}

} // verus!
