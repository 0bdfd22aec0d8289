//! A packed bit vector: a sequence of 64-bit words carrying one bit per
//! index.  All operations are specified against the bit-by-bit view
//! `bitat`, and the population count against `card_words`.

use vstd::prelude::*;

use crate::bits::bit64;
use crate::bits::card_words;
use crate::bits::count_word;
use crate::bits::lemma_bit_and;
use crate::bits::lemma_bit_diff;
use crate::bits::lemma_bit_mask_read;
use crate::bits::lemma_bit_or;
use crate::bits::lemma_bit_set;
use crate::bits::lemma_bit_unset;
use crate::bits::lemma_bit_xor;
use crate::bits::lemma_bit_zero;
use crate::bits::lemma_nonzero_bit;
use crate::bits::lemma_word_disjoint;
use crate::bits::lemma_word_subset;

verus! {

/// Word count cap, so that bit indices and counts fit comfortably in
/// `usize` arithmetic.
pub const WORD_LIMIT: usize = 0x40_0000;

#[verifier::ext_equal]
pub struct BitVec {
    pub words: Vec<u64>,
}

/// Splitting a bit index into word index and offset.
pub proof fn lemma_split_index(i: int, n: int)
    requires
        0 <= i < 64 * n,
    ensures
        0 <= i / 64 < n,
        0 <= i % 64 < 64,
        i == 64 * (i / 64) + i % 64,
{
    assert(0 <= i / 64 < n && 0 <= i % 64 < 64 && i == 64 * (i / 64) + i % 64)
        by (nonlinear_arith)
        requires
            0 <= i < 64 * n,
    ;
}

/// Joining a word index and an offset into a bit index.
pub proof fn lemma_join_index(w: int, o: int, n: int)
    requires
        0 <= w < n,
        0 <= o < 64,
    ensures
        0 <= 64 * w + o < 64 * n,
        (64 * w + o) / 64 == w,
        (64 * w + o) % 64 == o,
{
    assert(0 <= 64 * w + o < 64 * n && (64 * w + o) / 64 == w && (64 * w + o) % 64 == o)
        by (nonlinear_arith)
        requires
            0 <= w < n,
            0 <= o < 64,
    ;
}

impl BitVec {
    /// Bit `i` of the vector; false outside the range.
    pub open spec fn bitat(self, i: int) -> bool {
        &&& 0 <= i < 64 * self.words@.len()
        &&& bit64(self.words@[i / 64], (i % 64) as u64)
    }

    /// Number of set bits.
    pub open spec fn cardv(self) -> nat {
        card_words(self.words@)
    }

    /// All-zero vector of `blocks` words.
    pub fn new(blocks: usize) -> (r: BitVec)
        requires
            blocks <= WORD_LIMIT,
        ensures
            r.words@.len() == blocks,
            forall|k: int| !r.bitat(k),
            forall|w: int| 0 <= w < blocks ==> r.words@[w] == 0u64,
            r.cardv() == 0,
    {
        let mut words: Vec<u64> = Vec::new();
        let mut i: usize = 0;
        while i < blocks
            invariant
                i <= blocks,
                words@.len() == i,
                forall|w: int| 0 <= w < i ==> words@[w] == 0u64,
            decreases blocks - i,
        {
            words.push(0u64);
            i = i + 1;
        }
        let r = BitVec { words };
        proof {
            lemma_bit_zero();
            assert forall|k: int| !r.bitat(k) by {
                if 0 <= k < 64 * r.words@.len() {
                    lemma_split_index(k, r.words@.len() as int);
                }
            }
            crate::bits::lemma_card_words_zero(r.words@);
        }
        r
    }

    /// A fresh all-zero vector of the same width.
    pub fn create_sibling(&self) -> (r: BitVec)
        requires
            self.words@.len() <= WORD_LIMIT,
        ensures
            r.words@.len() == self.words@.len(),
            forall|k: int| !r.bitat(k),
            r.cardv() == 0,
    {
        BitVec::new(self.words.len())
    }

    /// A copy with the very same bits.
    pub fn duplicate(&self) -> (r: BitVec)
        ensures
            r.words@ == self.words@,
    {
        let mut words: Vec<u64> = Vec::new();
        let mut i: usize = 0;
        while i < self.words.len()
            invariant
                i <= self.words@.len(),
                words@ =~= self.words@.subrange(0, i as int),
            decreases self.words@.len() - i,
        {
            words.push(self.words[i]);
            i = i + 1;
        }
        proof {
            assert(words@ =~= self.words@);
        }
        BitVec { words }
    }

    pub fn read_bit(&self, i: usize) -> (r: bool)
        requires
            i < 64 * self.words@.len(),
        ensures
            r == self.bitat(i as int),
    {
        proof {
            lemma_split_index(i as int, self.words@.len() as int);
        }
        let w: usize = i / 64;
        let o: u64 = (i % 64) as u64;
        proof {
            lemma_bit_mask_read(self.words@[w as int], o);
        }
        self.words[w] & (1u64 << o) != 0
    }

    pub fn set_bit(&mut self, i: usize)
        requires
            i < 64 * old(self).words@.len(),
        ensures
            final(self).words@.len() == old(self).words@.len(),
            forall|k: int| final(self).bitat(k) == (k == i as int || old(self).bitat(k)),
            final(self).cardv() == old(self).cardv() + (if old(self).bitat(i as int) {
                0nat
            } else {
                1nat
            }),
    {
        proof {
            lemma_split_index(i as int, self.words@.len() as int);
        }
        let w: usize = i / 64;
        let o: u64 = (i % 64) as u64;
        let word: u64 = self.words[w];
        self.words[w] = word | (1u64 << o);
        proof {
            lemma_bit_set(word, o);
            assert forall|k: int| self.bitat(k) == (k == i as int || old(self).bitat(k)) by {
                let n = self.words@.len() as int;
                if 0 <= k < 64 * n {
                    lemma_split_index(k, n);
                    if k / 64 == w as int {
                        assert(k == i as int <==> (k % 64) as u64 == o);
                    }
                }
            }
            let nw = word | (1u64 << o);
            assert(self.words@ =~= old(self).words@.update(w as int, nw));
            crate::bits::lemma_card_words_update(old(self).words@, w as int, nw);
            if old(self).bitat(i as int) {
                assert forall|b: u64| b < 64 implies bit64(nw, b) == bit64(word, b) by {
                    if b == o {
                        assert(bit64(word, o));
                    }
                }
                crate::bits::lemma_pc_same(nw, word, 64);
            } else {
                assert(!bit64(word, o));
                crate::bits::lemma_pc_drop(nw, word, o, 64);
            }
        }
    }

    pub fn unset_bit(&mut self, i: usize)
        requires
            i < 64 * old(self).words@.len(),
        ensures
            final(self).words@.len() == old(self).words@.len(),
            forall|k: int| final(self).bitat(k) == (k != i as int && old(self).bitat(k)),
            old(self).cardv() == final(self).cardv() + (if old(self).bitat(i as int) {
                1nat
            } else {
                0nat
            }),
    {
        proof {
            lemma_split_index(i as int, self.words@.len() as int);
        }
        let w: usize = i / 64;
        let o: u64 = (i % 64) as u64;
        let word: u64 = self.words[w];
        self.words[w] = word & !(1u64 << o);
        proof {
            lemma_bit_unset(word, o);
            assert forall|k: int| self.bitat(k) == (k != i as int && old(self).bitat(k)) by {
                let n = self.words@.len() as int;
                if 0 <= k < 64 * n {
                    lemma_split_index(k, n);
                    if k / 64 == w as int {
                        assert(k == i as int <==> (k % 64) as u64 == o);
                    }
                }
            }
            let nw = word & !(1u64 << o);
            assert(self.words@ =~= old(self).words@.update(w as int, nw));
            crate::bits::lemma_card_words_update(old(self).words@, w as int, nw);
            if old(self).bitat(i as int) {
                assert(bit64(word, o) && !bit64(nw, o));
                crate::bits::lemma_pc_drop(word, nw, o, 64);
            } else {
                assert forall|b: u64| b < 64 implies bit64(nw, b) == bit64(word, b) by {
                    if b == o {
                        assert(!bit64(word, o));
                    }
                }
                crate::bits::lemma_pc_same(nw, word, 64);
            }
        }
    }

    pub fn flip_bit(&mut self, i: usize)
        requires
            i < 64 * old(self).words@.len(),
        ensures
            final(self).words@.len() == old(self).words@.len(),
            forall|k: int|
                final(self).bitat(k) == (if k == i as int {
                    !old(self).bitat(k)
                } else {
                    old(self).bitat(k)
                }),
    {
        proof {
            lemma_split_index(i as int, self.words@.len() as int);
        }
        let w: usize = i / 64;
        let o: u64 = (i % 64) as u64;
        let word: u64 = self.words[w];
        self.words[w] = word ^ (1u64 << o);
        proof {
            lemma_bit_xor(word, 1u64 << o);
            crate::bits::lemma_bit_single(o);
            assert forall|k: int|
                self.bitat(k) == (if k == i as int {
                    !old(self).bitat(k)
                } else {
                    old(self).bitat(k)
                }) by {
                let n = self.words@.len() as int;
                if 0 <= k < 64 * n {
                    lemma_split_index(k, n);
                    if k / 64 == w as int {
                        assert(k == i as int <==> (k % 64) as u64 == o);
                        assert(bit64(1u64 << o, (k % 64) as u64) == ((k % 64) as u64 == o));
                    }
                }
            }
        }
    }

    /// In-place union: `self <- self | rhs`.
    pub fn or_in(&mut self, rhs: &BitVec)
        requires
            old(self).words@.len() == rhs.words@.len(),
        ensures
            final(self).words@.len() == old(self).words@.len(),
            forall|k: int| #![trigger old(self).bitat(k)] final(self).bitat(k) == (old(self).bitat(
                k,
            ) || rhs.bitat(k)),
    {
        let n = self.words.len();
        let mut i: usize = 0;
        while i < n
            invariant
                n == self.words@.len(),
                n == rhs.words@.len(),
                n == old(self).words@.len(),
                i <= n,
                forall|w: int|
                    0 <= w < i ==> self.words@[w] == (old(self).words@[w] | rhs.words@[w]),
                forall|w: int| i <= w < n ==> self.words@[w] == old(self).words@[w],
            decreases n - i,
        {
            let word: u64 = self.words[i];
            self.words[i] = word | rhs.words[i];
            i = i + 1;
        }
        proof {
            assert forall|k: int| #![trigger old(self).bitat(k)] self.bitat(k) == (old(self).bitat(
                k,
            ) || rhs.bitat(k)) by {
                if 0 <= k < 64 * n {
                    lemma_split_index(k, n as int);
                    lemma_bit_or(old(self).words@[k / 64], rhs.words@[k / 64]);
                }
            }
        }
    }

    /// In-place intersection: `self <- self & rhs`.
    pub fn and_in(&mut self, rhs: &BitVec)
        requires
            old(self).words@.len() == rhs.words@.len(),
        ensures
            final(self).words@.len() == old(self).words@.len(),
            forall|w: int|
                0 <= w < old(self).words@.len() ==> final(self).words@[w] == (old(self).words@[w]
                    & rhs.words@[w]),
    {
        let n = self.words.len();
        let mut i: usize = 0;
        while i < n
            invariant
                n == self.words@.len(),
                n == rhs.words@.len(),
                n == old(self).words@.len(),
                i <= n,
                forall|w: int|
                    0 <= w < i ==> self.words@[w] == (old(self).words@[w] & rhs.words@[w]),
                forall|w: int| i <= w < n ==> self.words@[w] == old(self).words@[w],
            decreases n - i,
        {
            let word: u64 = self.words[i];
            self.words[i] = word & rhs.words[i];
            i = i + 1;
        }
    }

    /// In-place difference: `self <- self & !rhs`.
    pub fn diff_in(&mut self, rhs: &BitVec)
        requires
            old(self).words@.len() == rhs.words@.len(),
        ensures
            final(self).words@.len() == old(self).words@.len(),
            forall|k: int| #![trigger old(self).bitat(k)] final(self).bitat(k) == (old(self).bitat(
                k,
            ) && !rhs.bitat(k)),
    {
        let n = self.words.len();
        let mut i: usize = 0;
        while i < n
            invariant
                n == self.words@.len(),
                n == rhs.words@.len(),
                n == old(self).words@.len(),
                i <= n,
                forall|w: int|
                    0 <= w < i ==> self.words@[w] == (old(self).words@[w] & !rhs.words@[w]),
                forall|w: int| i <= w < n ==> self.words@[w] == old(self).words@[w],
            decreases n - i,
        {
            let word: u64 = self.words[i];
            self.words[i] = word & !rhs.words[i];
            i = i + 1;
        }
        proof {
            assert forall|k: int| #![trigger old(self).bitat(k)] self.bitat(k) == (old(self).bitat(
                k,
            ) && !rhs.bitat(k)) by {
                if 0 <= k < 64 * n {
                    lemma_split_index(k, n as int);
                    lemma_bit_diff(old(self).words@[k / 64], rhs.words@[k / 64]);
                }
            }
        }
    }

    /// In-place symmetric difference: `self <- self ^ rhs`.
    pub fn xor_in(&mut self, rhs: &BitVec)
        requires
            old(self).words@.len() == rhs.words@.len(),
        ensures
            final(self).words@.len() == old(self).words@.len(),
            forall|k: int| final(self).bitat(k) == (old(self).bitat(k) != rhs.bitat(k)),
    {
        let n = self.words.len();
        let mut i: usize = 0;
        while i < n
            invariant
                n == self.words@.len(),
                n == rhs.words@.len(),
                n == old(self).words@.len(),
                i <= n,
                forall|w: int|
                    0 <= w < i ==> self.words@[w] == (old(self).words@[w] ^ rhs.words@[w]),
                forall|w: int| i <= w < n ==> self.words@[w] == old(self).words@[w],
            decreases n - i,
        {
            let word: u64 = self.words[i];
            self.words[i] = word ^ rhs.words[i];
            i = i + 1;
        }
        proof {
            assert forall|k: int| self.bitat(k) == (old(self).bitat(k) != rhs.bitat(k)) by {
                if 0 <= k < 64 * n {
                    lemma_split_index(k, n as int);
                    lemma_bit_xor(old(self).words@[k / 64], rhs.words@[k / 64]);
                }
            }
        }
    }

    /// Does every bit of `self` stand in `rhs`?
    pub fn subset_of(&self, rhs: &BitVec) -> (r: bool)
        requires
            self.words@.len() == rhs.words@.len(),
        ensures
            r == forall|k: int| self.bitat(k) ==> rhs.bitat(k),
    {
        let n = self.words.len();
        let mut i: usize = 0;
        while i < n
            invariant
                n == self.words@.len(),
                n == rhs.words@.len(),
                i <= n,
                forall|w: int| 0 <= w < i ==> self.words@[w] & !rhs.words@[w] == 0,
            decreases n - i,
        {
            let d: u64 = self.words[i] & !rhs.words[i];
            if d != 0 {
                proof {
                    let j = lemma_nonzero_bit(d);
                    lemma_bit_diff(self.words@[i as int], rhs.words@[i as int]);
                    lemma_join_index(i as int, j as int, n as int);
                    let k = 64 * (i as int) + j;
                    assert(self.bitat(k) && !rhs.bitat(k));
                }
                return false;
            }
            i = i + 1;
        }
        proof {
            assert forall|k: int| self.bitat(k) implies rhs.bitat(k) by {
                if 0 <= k < 64 * n {
                    lemma_split_index(k, n as int);
                    lemma_word_subset(self.words@[k / 64], rhs.words@[k / 64]);
                }
            }
        }
        true
    }

    /// Do `self` and `rhs` share no bit?
    pub fn disjoint(&self, rhs: &BitVec) -> (r: bool)
        requires
            self.words@.len() == rhs.words@.len(),
        ensures
            r == forall|k: int| !(self.bitat(k) && rhs.bitat(k)),
    {
        let n = self.words.len();
        let mut i: usize = 0;
        while i < n
            invariant
                n == self.words@.len(),
                n == rhs.words@.len(),
                i <= n,
                forall|w: int| 0 <= w < i ==> self.words@[w] & rhs.words@[w] == 0,
            decreases n - i,
        {
            let d: u64 = self.words[i] & rhs.words[i];
            if d != 0 {
                proof {
                    let j = lemma_nonzero_bit(d);
                    lemma_bit_and(self.words@[i as int], rhs.words@[i as int]);
                    lemma_join_index(i as int, j as int, n as int);
                    let k = 64 * (i as int) + j;
                    assert(self.bitat(k) && rhs.bitat(k));
                }
                return false;
            }
            i = i + 1;
        }
        proof {
            assert forall|k: int| !(self.bitat(k) && rhs.bitat(k)) by {
                if 0 <= k < 64 * n {
                    lemma_split_index(k, n as int);
                    lemma_word_disjoint(self.words@[k / 64], rhs.words@[k / 64]);
                }
            }
        }
        true
    }

    /// Is every bit clear?
    pub fn is_null(&self) -> (r: bool)
        ensures
            r == forall|k: int| !self.bitat(k),
    {
        let n = self.words.len();
        let mut i: usize = 0;
        while i < n
            invariant
                n == self.words@.len(),
                i <= n,
                forall|w: int| 0 <= w < i ==> self.words@[w] == 0,
            decreases n - i,
        {
            let d: u64 = self.words[i];
            if d != 0 {
                proof {
                    let j = lemma_nonzero_bit(d);
                    lemma_join_index(i as int, j as int, n as int);
                    let k = 64 * (i as int) + j;
                    assert(self.bitat(k));
                }
                return false;
            }
            i = i + 1;
        }
        proof {
            lemma_bit_zero();
            assert forall|k: int| !self.bitat(k) by {
                if 0 <= k < 64 * n {
                    lemma_split_index(k, n as int);
                }
            }
        }
        true
    }

    /// Clears every bit.
    pub fn clear_bits(&mut self)
        ensures
            final(self).words@.len() == old(self).words@.len(),
            forall|k: int| !final(self).bitat(k),
            final(self).cardv() == 0,
    {
        let n = self.words.len();
        let mut i: usize = 0;
        while i < n
            invariant
                n == self.words@.len(),
                i <= n,
                forall|w: int| 0 <= w < i ==> self.words@[w] == 0,
            decreases n - i,
        {
            self.words[i] = 0u64;
            i = i + 1;
        }
        proof {
            lemma_bit_zero();
            assert forall|k: int| !self.bitat(k) by {
                if 0 <= k < 64 * n {
                    lemma_split_index(k, n as int);
                }
            }
            crate::bits::lemma_card_words_zero(self.words@);
        }
    }

    /// Population count over the whole vector.
    pub fn ones(&self) -> (c: usize)
        requires
            self.words@.len() <= WORD_LIMIT,
        ensures
            c == self.cardv(),
            c <= 64 * self.words@.len(),
    {
        let n = self.words.len();
        let mut c: usize = 0;
        let mut i: usize = 0;
        while i < n
            invariant
                n == self.words@.len(),
                n <= WORD_LIMIT,
                i <= n,
                c == card_words(self.words@.subrange(0, i as int)),
                c <= 64 * i,
            decreases n - i,
        {
            let w: u64 = self.words[i];
            let cw: usize = count_word(w);
            proof {
                let pre = self.words@.subrange(0, i as int);
                let post = self.words@.subrange(0, i as int + 1);
                assert(post.drop_last() =~= pre);
                assert(post.last() == w);
            }
            c = c + cw;
            i = i + 1;
        }
        proof {
            assert(self.words@.subrange(0, n as int) =~= self.words@);
        }
        c
    }
}

} // verus!
