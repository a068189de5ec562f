//! Facts about single bits of a 64-bit word, and the population count of a word.
use vstd::prelude::*;
use vstd::std_specs::bits::{u64_trailing_zeros, axiom_u64_trailing_zeros};

verus! {

/// Whether bit `i` of the word `w` is one (false outside `0..64`).
pub open spec fn word_has(w: u64, i: int) -> bool {
    0 <= i < 64 && (w >> (i as u64)) & 1u64 == 1u64
}

/// The number of one bits of `w` among positions `0..n`.
pub open spec fn ones_below(w: u64, n: nat) -> nat
    decreases n,
{
    if n == 0 {
        0
    } else {
        ones_below(w, (n - 1) as nat) + if word_has(w, n - 1) { 1nat } else { 0nat }
    }
}

/// The number of one bits of `w`.
pub open spec fn word_ones(w: u64) -> nat {
    ones_below(w, 64)
}

/// Calls `u64::count_ones`. std documents it as returning the number of ones in the
/// binary representation of the word; this contract claims exactly that.
#[verifier::external_body]
pub(crate) fn count_word_ones(w: u64) -> (r: u32)
    ensures
        r == word_ones(w),
{
    w.count_ones()
}

proof fn lemma_bv_single(w: u64, k: u64, i: u64)
    requires
        k < 64,
        i < 64,
    ensures
        ((w | (1u64 << k)) >> i) & 1u64 == 1u64 <==> ((w >> i) & 1u64 == 1u64 || i == k),
        ((w & !(1u64 << k)) >> i) & 1u64 == 1u64 <==> ((w >> i) & 1u64 == 1u64 && i != k),
        ((w ^ (1u64 << k)) >> i) & 1u64 == 1u64 <==> ((w >> i) & 1u64 == 1u64 != (i == k)),
        (w & (1u64 << k)) != 0u64 <==> (w >> k) & 1u64 == 1u64,
{
    assert(((w | (1u64 << k)) >> i) & 1u64 == 1u64 <==> ((w >> i) & 1u64 == 1u64 || i == k))
        by (bit_vector)
        requires
            k < 64,
            i < 64,
    ;
    assert(((w & !(1u64 << k)) >> i) & 1u64 == 1u64 <==> ((w >> i) & 1u64 == 1u64 && i != k))
        by (bit_vector)
        requires
            k < 64,
            i < 64,
    ;
    assert(((w ^ (1u64 << k)) >> i) & 1u64 == 1u64 <==> ((w >> i) & 1u64 == 1u64 != (i == k)))
        by (bit_vector)
        requires
            k < 64,
            i < 64,
    ;
    assert((w & (1u64 << k)) != 0u64 <==> (w >> k) & 1u64 == 1u64) by (bit_vector)
        requires
            k < 64,
    ;
}

/// Setting, clearing and toggling bit `k` of a word change that bit alone, and a mask test
/// reads it.
pub proof fn lemma_word_single(w: u64, k: u64)
    requires
        k < 64,
    ensures
        forall|i: int| #[trigger]
            word_has(w | (1u64 << k), i) == (word_has(w, i) || i == k),
        forall|i: int| #[trigger]
            word_has(w & !(1u64 << k), i) == (word_has(w, i) && i != k),
        forall|i: int| #[trigger]
            word_has(w ^ (1u64 << k), i) == (word_has(w, i) != (i == k)),
        (w & (1u64 << k)) != 0u64 <==> word_has(w, k as int),
{
    assert forall|i: int| #[trigger] word_has(w | (1u64 << k), i) == (word_has(w, i) || i == k) by {
        if 0 <= i < 64 {
            lemma_bv_single(w, k, i as u64);
        }
    }
    assert forall|i: int| #[trigger] word_has(w & !(1u64 << k), i) == (word_has(w, i) && i != k) by {
        if 0 <= i < 64 {
            lemma_bv_single(w, k, i as u64);
        }
    }
    assert forall|i: int| #[trigger] word_has(w ^ (1u64 << k), i) == (word_has(w, i) != (i == k)) by {
        if 0 <= i < 64 {
            lemma_bv_single(w, k, i as u64);
        }
    }
    lemma_bv_single(w, k, 0);
}

proof fn lemma_bv_pair(a: u64, c: u64, i: u64)
    requires
        i < 64,
    ensures
        ((a & c) >> i) & 1u64 == 1u64 <==> ((a >> i) & 1u64 == 1u64 && (c >> i) & 1u64 == 1u64),
        ((a | c) >> i) & 1u64 == 1u64 <==> ((a >> i) & 1u64 == 1u64 || (c >> i) & 1u64 == 1u64),
        ((a ^ c) >> i) & 1u64 == 1u64 <==> ((a >> i) & 1u64 == 1u64 != ((c >> i) & 1u64 == 1u64)),
        ((a & !c) >> i) & 1u64 == 1u64 <==> ((a >> i) & 1u64 == 1u64 && (c >> i) & 1u64 != 1u64),
        ((!a) >> i) & 1u64 == 1u64 <==> (a >> i) & 1u64 != 1u64,
{
    assert(((a & c) >> i) & 1u64 == 1u64 <==> ((a >> i) & 1u64 == 1u64 && (c >> i) & 1u64
        == 1u64)) by (bit_vector);
    assert(((a | c) >> i) & 1u64 == 1u64 <==> ((a >> i) & 1u64 == 1u64 || (c >> i) & 1u64
        == 1u64)) by (bit_vector);
    assert(((a ^ c) >> i) & 1u64 == 1u64 <==> ((a >> i) & 1u64 == 1u64 != ((c >> i) & 1u64
        == 1u64))) by (bit_vector);
    assert(((a & !c) >> i) & 1u64 == 1u64 <==> ((a >> i) & 1u64 == 1u64 && (c >> i) & 1u64
        != 1u64)) by (bit_vector);
    assert(((!a) >> i) & 1u64 == 1u64 <==> (a >> i) & 1u64 != 1u64) by (bit_vector)
        requires
            i < 64,
    ;
}

/// The bitwise operators act bit by bit.
pub proof fn lemma_word_ops(a: u64, c: u64)
    ensures
        forall|i: int| #[trigger] word_has(a & c, i) == (word_has(a, i) && word_has(c, i)),
        forall|i: int| #[trigger] word_has(a | c, i) == (word_has(a, i) || word_has(c, i)),
        forall|i: int| #[trigger] word_has(a ^ c, i) == (word_has(a, i) != word_has(c, i)),
        forall|i: int| #[trigger] word_has(a & !c, i) == (word_has(a, i) && !word_has(c, i)),
        forall|i: int| #[trigger] word_has(!a, i) == (0 <= i < 64 && !word_has(a, i)),
{
    assert forall|i: int| #[trigger] word_has(a & c, i) == (word_has(a, i) && word_has(c, i)) by {
        if 0 <= i < 64 {
            lemma_bv_pair(a, c, i as u64);
        }
    }
    assert forall|i: int| #[trigger] word_has(a | c, i) == (word_has(a, i) || word_has(c, i)) by {
        if 0 <= i < 64 {
            lemma_bv_pair(a, c, i as u64);
        }
    }
    assert forall|i: int| #[trigger] word_has(a ^ c, i) == (word_has(a, i) != word_has(c, i)) by {
        if 0 <= i < 64 {
            lemma_bv_pair(a, c, i as u64);
        }
    }
    assert forall|i: int| #[trigger]
        word_has(a & !c, i) == (word_has(a, i) && !word_has(c, i)) by {
        if 0 <= i < 64 {
            lemma_bv_pair(a, c, i as u64);
        }
    }
    assert forall|i: int| #[trigger] word_has(!a, i) == (0 <= i < 64 && !word_has(a, i)) by {
        if 0 <= i < 64 {
            lemma_bv_pair(a, c, i as u64);
        }
    }
}

/// The all-zero word has no bit, the all-one word has every bit.
pub proof fn lemma_word_const()
    ensures
        forall|i: int| !#[trigger] word_has(0u64, i),
        forall|i: int| #[trigger] word_has(u64::MAX, i) == (0 <= i < 64),
{
    assert forall|i: int| !#[trigger] word_has(0u64, i) by {
        if 0 <= i < 64 {
            let j = i as u64;
            assert((0u64 >> j) & 1u64 != 1u64) by (bit_vector);
        }
    }
    assert forall|i: int| #[trigger] word_has(u64::MAX, i) == (0 <= i < 64) by {
        if 0 <= i < 64 {
            let j = i as u64;
            assert((0xffff_ffff_ffff_ffffu64 >> j) & 1u64 == 1u64) by (bit_vector)
                requires
                    j < 64,
            ;
        }
    }
}

/// A nonzero word has a lowest one bit, at its trailing-zero count.
pub proof fn lemma_word_lowest(w: u64)
    requires
        w != 0,
    ensures
        u64_trailing_zeros(w) < 64,
        word_has(w, u64_trailing_zeros(w) as int),
        forall|i: int| 0 <= i < u64_trailing_zeros(w) ==> !#[trigger] word_has(w, i),
{
    axiom_u64_trailing_zeros(w);
    assert forall|i: int| 0 <= i < u64_trailing_zeros(w) implies !#[trigger] word_has(w, i) by {
        let j = i as u64;
        assert((w >> j) & 1u64 == 0u64);
    }
}

/// Two words with the same bits are equal.
pub proof fn lemma_word_ext(a: u64, c: u64)
    requires
        forall|i: int| 0 <= i < 64 ==> word_has(a, i) == word_has(c, i),
    ensures
        a == c,
{
    if a != c {
        let d = a ^ c;
        assert(d != 0) by (bit_vector)
            requires
                a != c,
                d == a ^ c,
        ;
        lemma_word_lowest(d);
        lemma_word_ops(a, c);
        let t = u64_trailing_zeros(d) as int;
        assert(word_has(a ^ c, t));
        assert(word_has(a, t) == word_has(c, t));
    }
}

/// A word is zero exactly when it has no bit.
pub proof fn lemma_word_zero(w: u64)
    ensures
        w == 0 <==> forall|i: int| 0 <= i < 64 ==> !word_has(w, i),
{
    lemma_word_const();
    if forall|i: int| 0 <= i < 64 ==> !word_has(w, i) {
        lemma_word_ext(w, 0);
    }
}

/// Clearing the lowest one bit with `w & (w - 1)` removes exactly that bit.
pub proof fn lemma_word_clear_lowest(w: u64)
    requires
        w != 0,
    ensures
        forall|i: int| #[trigger]
            word_has(w & ((w - 1) as u64), i) == (word_has(w, i) && i != u64_trailing_zeros(w)),
{
    axiom_u64_trailing_zeros(w);
    let t = u64_trailing_zeros(w) as u64;
    assert forall|i: int| #[trigger]
        word_has(w & ((w - 1) as u64), i) == (word_has(w, i) && i != u64_trailing_zeros(w)) by {
        if 0 <= i < 64 {
            let j = i as u64;
            assert(((w & ((w - 1) as u64)) >> j) & 1u64 == 1u64 <==> ((w >> j) & 1u64 == 1u64 && j != t))
                by (bit_vector)
                requires
                    w != 0,
                    t < 64,
                    j < 64,
                    (w >> t) & 1u64 == 1u64,
                    w << ((64 - t) as u64) == 0,
            ;
        }
    }
}


/// The word whose upper half is `hi` and whose lower half is `lo`.
pub open spec fn join_halves(hi: u32, lo: u32) -> u64 {
    ((hi as u64) << 32u64) | (lo as u64)
}

/// Bits of a widened 32-bit value lie in `0..32`; a joined word holds the bits of `lo` in
/// `0..32` and those of `hi` in `32..64`.
pub proof fn lemma_halves(hi: u32, lo: u32)
    ensures
        forall|i: int| #[trigger] word_has(lo as u64, i) ==> i < 32,
        forall|i: int| #[trigger] word_has(hi as u64, i) ==> i < 32,
        forall|i: int| #[trigger]
            word_has(join_halves(hi, lo), i) == ((0 <= i < 32 && word_has(lo as u64, i)) || (32
                <= i < 64 && word_has(hi as u64, i - 32))),
{
    assert forall|i: int| #[trigger] word_has(lo as u64, i) implies i < 32 by {
        if 32 <= i < 64 {
            let j = i as u64;
            assert(((lo as u64) >> j) & 1u64 == 0u64) by (bit_vector)
                requires
                    32 <= j < 64,
            ;
        }
    }
    assert forall|i: int| #[trigger] word_has(hi as u64, i) implies i < 32 by {
        if 32 <= i < 64 {
            let j = i as u64;
            assert(((hi as u64) >> j) & 1u64 == 0u64) by (bit_vector)
                requires
                    32 <= j < 64,
            ;
        }
    }
    assert forall|i: int| #[trigger]
        word_has(join_halves(hi, lo), i) == ((0 <= i < 32 && word_has(lo as u64, i)) || (32 <= i
            < 64 && word_has(hi as u64, i - 32))) by {
        if 0 <= i < 32 {
            let j = i as u64;
            assert(((((hi as u64) << 32u64) | (lo as u64)) >> j) & 1u64 == ((lo as u64) >> j)
                & 1u64) by (bit_vector)
                requires
                    j < 32,
            ;
        } else if 32 <= i < 64 {
            let j = i as u64;
            let k = (i - 32) as u64;
            assert(((((hi as u64) << 32u64) | (lo as u64)) >> j) & 1u64 == ((hi as u64) >> k)
                & 1u64) by (bit_vector)
                requires
                    32 <= j < 64,
                    k == j - 32,
            ;
        }
    }
}


/// Bit `i` of a widened 32-bit value is bit `i` of the value itself, and there is none at
/// `32..64`.
pub proof fn lemma_widened_bits(a: u32)
    ensures
        forall|i: int| #[trigger]
            word_has(a as u64, i) == (0 <= i < 32 && (a >> (i as u32)) & 1u32 == 1u32),
{
    lemma_halves(0, a);
    assert forall|i: int| #[trigger]
        word_has(a as u64, i) == (0 <= i < 32 && (a >> (i as u32)) & 1u32 == 1u32) by {
        if 0 <= i < 32 {
            let j = i as u32;
            let k = i as u64;
            assert(((a as u64) >> k) & 1u64 == 1u64 <==> (a >> j) & 1u32 == 1u32) by (bit_vector)
                requires
                    j < 32,
                    k == j as u64,
            ;
        }
    }
}

} // verus!
