//! Word-level bit primitives: single-bit reads and writes, population
//! counts, and the lemmas that relate the machine operations to the
//! bit-by-bit view used by the clause specifications.

use vstd::prelude::*;

verus! {

/// Bit `i` of word `w`; false whenever `i` is out of range.
pub open spec fn bit64(w: u64, i: u64) -> bool {
    i < 64 && (w >> i) & 1u64 == 1u64
}

/// Number of set bits among the low `n` bits of `w`.
pub open spec fn pc_rec(w: u64, n: int) -> nat
    decreases n,
{
    if n <= 0 {
        0
    } else {
        pc_rec(w, n - 1) + (if bit64(w, (n - 1) as u64) {
            1nat
        } else {
            0nat
        })
    }
}

/// Number of set bits of `w`.
pub open spec fn pc64(w: u64) -> nat {
    pc_rec(w, 64)
}

pub proof fn lemma_bit_or(x: u64, y: u64)
    by (bit_vector)
    ensures
        forall|i: u64| i < 64 ==> #[trigger] bit64(x | y, i) == (bit64(x, i) || bit64(y, i)),
{
}

pub proof fn lemma_bit_and(x: u64, y: u64)
    by (bit_vector)
    ensures
        forall|i: u64| i < 64 ==> #[trigger] bit64(x & y, i) == (bit64(x, i) && bit64(y, i)),
{
}

pub proof fn lemma_bit_diff(x: u64, y: u64)
    by (bit_vector)
    ensures
        forall|i: u64| i < 64 ==> #[trigger] bit64(x & !y, i) == (bit64(x, i) && !bit64(y, i)),
{
}

pub proof fn lemma_bit_xor(x: u64, y: u64)
    by (bit_vector)
    ensures
        forall|i: u64| i < 64 ==> #[trigger] bit64(x ^ y, i) == (bit64(x, i) != bit64(y, i)),
{
}

pub proof fn lemma_bit_set(x: u64, j: u64)
    by (bit_vector)
    requires
        j < 64,
    ensures
        forall|i: u64| i < 64 ==> #[trigger] bit64(x | (1u64 << j), i) == (i == j || bit64(x, i)),
{
}

pub proof fn lemma_bit_unset(x: u64, j: u64)
    by (bit_vector)
    requires
        j < 64,
    ensures
        forall|i: u64|
            i < 64 ==> #[trigger] bit64(x & !(1u64 << j), i) == (i != j && bit64(x, i)),
{
}

/// The word `1 << j` carries exactly the bit `j`.
pub proof fn lemma_bit_single(j: u64)
    by (bit_vector)
    requires
        j < 64,
    ensures
        forall|i: u64| #[trigger] bit64(1u64 << j, i) == (i == j),
{
}

pub proof fn lemma_bit_zero()
    by (bit_vector)
    ensures
        forall|i: u64| !bit64(0u64, i),
{
}

/// A word read through a mask agrees with the bit-by-bit view.
pub proof fn lemma_bit_mask_read(x: u64, j: u64)
    by (bit_vector)
    requires
        j < 64,
    ensures
        (x & (1u64 << j) != 0) == bit64(x, j),
{
}

/// When `x & !y == 0`, every bit of `x` also stands in `y`.
pub proof fn lemma_word_subset(x: u64, y: u64)
    by (bit_vector)
    requires
        x & !y == 0,
    ensures
        forall|i: u64| #[trigger] bit64(x, i) ==> bit64(y, i),
{
}

/// When `x & y == 0`, no bit stands in both words.
pub proof fn lemma_word_disjoint(x: u64, y: u64)
    by (bit_vector)
    requires
        x & y == 0,
    ensures
        forall|i: u64| !(#[trigger] bit64(x, i) && bit64(y, i)),
{
}

/// Every nonzero word has a set bit at or above any position below
/// which it is known to be nonzero after shifting.
pub proof fn lemma_find_bit(d: u64, n: u64) -> (j: u64)
    requires
        n < 64,
        d >> n != 0,
    ensures
        n <= j < 64,
        bit64(d, j),
    decreases 64 - n,
{
    if (d >> n) & 1u64 == 1u64 {
        n
    } else {
        assert(n < 63 && d >> ((n + 1) as u64) != 0) by (bit_vector)
            requires
                n < 64,
                d >> n != 0,
                (d >> n) & 1u64 != 1u64,
        ;
        lemma_find_bit(d, (n + 1) as u64)
    }
}

/// A nonzero word has at least one set bit.
pub proof fn lemma_nonzero_bit(d: u64) -> (j: u64)
    requires
        d != 0,
    ensures
        j < 64,
        bit64(d, j),
{
    assert(d >> 0u64 != 0) by (bit_vector)
        requires
            d != 0,
    ;
    lemma_find_bit(d, 0)
}

/// Words equal on their low `n` bits have the same count there.
pub proof fn lemma_pc_same(w: u64, x: u64, n: int)
    requires
        forall|i: u64| i < n ==> bit64(w, i) == bit64(x, i),
    ensures
        pc_rec(w, n) == pc_rec(x, n),
    decreases n,
{
    if n > 0 {
        lemma_pc_same(w, x, n - 1);
    }
}

/// Clearing exactly one set bit lowers the count by one.
pub proof fn lemma_pc_drop(w: u64, x: u64, j: u64, n: int)
    requires
        n <= 64,
        j < 64,
        bit64(w, j),
        !bit64(x, j),
        forall|i: u64| i < 64 && i != j ==> bit64(w, i) == bit64(x, i),
    ensures
        pc_rec(w, n) == pc_rec(x, n) + (if j < n {
            1nat
        } else {
            0nat
        }),
    decreases n,
{
    if n > 0 {
        lemma_pc_drop(w, x, j, n - 1);
        let b = (n - 1) as u64;
        if b != j {
            assert(bit64(w, b) == bit64(x, b));
        }
    }
}

pub proof fn lemma_pc_zero(n: int)
    ensures
        pc_rec(0u64, n) == 0,
    decreases n,
{
    lemma_bit_zero();
    if n > 0 {
        lemma_pc_zero(n - 1);
    }
}

/// Counts the set bits of one word.
pub fn count_word(w: u64) -> (c: usize)
    ensures
        c == pc64(w),
        c <= 64,
{
    let mut c: usize = 0;
    let mut j: u64 = 0;
    while j < 64
        invariant
            j <= 64,
            c == pc_rec(w, j as int),
            c <= j,
        decreases 64 - j,
    {
        proof {
            lemma_bit_mask_read(w, j);
        }
        if w & (1u64 << j) != 0 {
            c = c + 1;
        }
        j = j + 1;
    }
    c
}

/// Index of the lowest set bit of a nonzero word.
pub fn lowest_bit(d: u64) -> (j: u64)
    requires
        d != 0,
    ensures
        j < 64,
        bit64(d, j),
        forall|k: u64| k < j ==> !bit64(d, k),
{
    let mut j: u64 = 0;
    while j < 64
        invariant
            j <= 64,
            forall|k: u64| k < j ==> !bit64(d, k),
        decreases 64 - j,
    {
        proof {
            lemma_bit_mask_read(d, j);
        }
        if d & (1u64 << j) != 0 {
            return j;
        }
        j = j + 1;
    }
    proof {
        let w = lemma_nonzero_bit(d);
        assert(false);
    }
    0
}

/// Total population count of a word sequence.
pub open spec fn card_words(s: Seq<u64>) -> nat
    decreases s.len(),
{
    if s.len() == 0 {
        0
    } else {
        card_words(s.drop_last()) + pc64(s.last())
    }
}

/// The total count, restated word by word.
pub proof fn lemma_card_words_update(s: Seq<u64>, k: int, w: u64)
    requires
        0 <= k < s.len(),
    ensures
        card_words(s.update(k, w)) + pc64(s[k]) == card_words(s) + pc64(w),
    decreases s.len(),
{
    let t = s.update(k, w);
    if k == s.len() - 1 {
        assert(t.drop_last() =~= s.drop_last());
    } else {
        assert(t.drop_last() =~= s.drop_last().update(k, w));
        lemma_card_words_update(s.drop_last(), k, w);
    }
}

pub proof fn lemma_card_words_zero(s: Seq<u64>)
    requires
        forall|i: int| 0 <= i < s.len() ==> s[i] == 0u64,
    ensures
        card_words(s) == 0,
    decreases s.len(),
{
    lemma_pc_zero(64);
    if s.len() > 0 {
        lemma_card_words_zero(s.drop_last());
    }
}

/// A positive count over the low `n` bits names a set bit.
pub proof fn lemma_pc_pos_bit(w: u64, n: int) -> (j: u64)
    requires
        pc_rec(w, n) > 0,
    ensures
        j < n,
        bit64(w, j),
    decreases n,
{
    if n > 0 && bit64(w, (n - 1) as u64) {
        (n - 1) as u64
    } else {
        lemma_pc_pos_bit(w, n - 1)
    }
}

/// A set bit makes the count positive.
pub proof fn lemma_bit_pc_pos(w: u64, j: u64)
    requires
        bit64(w, j),
    ensures
        pc64(w) > 0,
{
    lemma_bit_pc_pos_rec(w, j, 64);
}

proof fn lemma_bit_pc_pos_rec(w: u64, j: u64, n: int)
    requires
        bit64(w, j),
        j < n,
    ensures
        pc_rec(w, n) > 0,
    decreases n,
{
    if j < n - 1 {
        lemma_bit_pc_pos_rec(w, j, n - 1);
    }
}

/// A positive total names a word with a set bit.
pub proof fn lemma_card_words_pos(s: Seq<u64>) -> (w: int)
    requires
        card_words(s) > 0,
    ensures
        0 <= w < s.len(),
        pc64(s[w]) > 0,
    decreases s.len(),
{
    if pc64(s.last()) > 0 {
        s.len() - 1
    } else {
        let w = lemma_card_words_pos(s.drop_last());
        assert(s.drop_last()[w] == s[w]);
        w
    }
}

/// The total bounds each word's count from above.
pub proof fn lemma_card_words_lower(s: Seq<u64>, w: int)
    requires
        0 <= w < s.len(),
    ensures
        card_words(s) >= pc64(s[w]),
    decreases s.len(),
{
    if w == s.len() - 1 {
    } else {
        assert(s.drop_last()[w] == s[w]);
        lemma_card_words_lower(s.drop_last(), w);
    }
}

} // verus!
