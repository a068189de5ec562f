//! `BitSet128`: a set of indices in `0..128` held in two 64-bit words.
use vstd::prelude::*;
use vstd::std_specs::bits::{u64_trailing_zeros, axiom_u64_leading_zeros};
use crate::word::{
    word_has, ones_below, word_ones, count_word_ones, lemma_word_const, lemma_word_single,
    lemma_word_ops, lemma_word_ext, lemma_word_lowest, lemma_word_zero, join_halves, lemma_halves,
    lemma_word_clear_lowest, lemma_widened_bits,
};
use vstd::std_specs::convert::FromSpec;
use core::ops::{BitAnd, BitAndAssign, BitOr, BitOrAssign, BitXor, BitXorAssign, Index};

verus! {

/// Every index a `BitSet128` can hold: `0..128`.
pub open spec fn index_range() -> Set<int> {
    Set::new(|i: int| 0 <= i < 128)
}

/// Whether index `i` is in the set whose low word (indices `0..64`) is `lo` and whose
/// high word (indices `64..128`) is `hi`.
pub open spec fn words_have(lo: u64, hi: u64, i: int) -> bool {
    if i < 64 {
        word_has(lo, i)
    } else {
        word_has(hi, i - 64)
    }
}

/// The set of indices held by the words `lo` (indices `0..64`) and `hi` (indices `64..128`).
pub open spec fn words_set(lo: u64, hi: u64) -> Set<int> {
    Set::new(|i: int| 0 <= i < 128 && words_have(lo, hi, i))
}

/// The largest member of `s` in `0..n`, or `-1` when `s` has none there.
pub open spec fn highest_below(s: Set<int>, n: nat) -> int
    decreases n,
{
    if n == 0 {
        -1
    } else if s.contains(n - 1) {
        n - 1
    } else {
        highest_below(s, (n - 1) as nat)
    }
}

/// `highest_below(s, n)` is `-1` exactly when `s` has no member in `0..n`, and otherwise
/// it is the member of `s` in `0..n` above which `s` has no member below `n`.
pub proof fn lemma_highest_below(s: Set<int>, n: nat)
    ensures
        -1 <= highest_below(s, n) < n,
        highest_below(s, n) == -1 <==> (forall|i: int| 0 <= i < n ==> !s.contains(i)),
        highest_below(s, n) >= 0 ==> s.contains(highest_below(s, n)),
        forall|i: int| highest_below(s, n) < i < n ==> !s.contains(i),
    decreases n,
{
    if n > 0 {
        lemma_highest_below(s, (n - 1) as nat);
    }
}

/// Members of the words below `n`.
spec fn words_prefix(lo: u64, hi: u64, n: int) -> Set<int> {
    Set::new(|i: int| 0 <= i < n && words_have(lo, hi, i))
}

/// The number of one bits among the first `n` indices of the words.
spec fn words_ones_below(lo: u64, hi: u64, n: nat) -> nat {
    if n <= 64 {
        ones_below(lo, n)
    } else {
        word_ones(lo) + ones_below(hi, (n - 64) as nat)
    }
}

proof fn lemma_ones_below_bound(w: u64, n: nat)
    ensures
        ones_below(w, n) <= n,
    decreases n,
{
    if n > 0 {
        lemma_ones_below_bound(w, (n - 1) as nat);
    }
}

proof fn lemma_prefix_len(lo: u64, hi: u64, n: nat)
    requires
        n <= 128,
    ensures
        words_prefix(lo, hi, n as int).finite(),
        words_prefix(lo, hi, n as int).len() == words_ones_below(lo, hi, n),
    decreases n,
{
    if n == 0 {
        assert(words_prefix(lo, hi, 0) =~= Set::<int>::empty());
    } else {
        let m = (n - 1) as nat;
        lemma_prefix_len(lo, hi, m);
        let p = words_prefix(lo, hi, m as int);
        assert(!p.contains(m as int));
        if words_have(lo, hi, m as int) {
            assert(words_prefix(lo, hi, n as int) =~= p.insert(m as int));
        } else {
            assert(words_prefix(lo, hi, n as int) =~= p);
        }
        if n > 64 {
            assert(ones_below(hi, (n - 64) as nat) == ones_below(hi, (m - 64) as nat) + if word_has(
                hi,
                m - 64,
            ) {
                1nat
            } else {
                0nat
            });
        }
    }
}

/// The set held by two words is a finite set of indices in `0..128`, of size the number of
/// one bits of the two words.
pub proof fn lemma_words_set_len(lo: u64, hi: u64)
    ensures
        words_set(lo, hi).finite(),
        words_set(lo, hi).subset_of(index_range()),
        words_set(lo, hi).len() == word_ones(lo) + word_ones(hi),
        words_set(lo, hi).len() <= 128,
{
    lemma_prefix_len(lo, hi, 128);
    assert(words_prefix(lo, hi, 128) =~= words_set(lo, hi));
    lemma_ones_below_bound(lo, 64);
    lemma_ones_below_bound(hi, 64);
}

/// The indices below 128 that occur in `s`.
pub open spec fn indices_set(s: Seq<u8>) -> Set<int> {
    Set::new(|i: int| 0 <= i < 128 && exists|j: int| 0 <= j < s.len() && s[j] as int == i)
}

proof fn lemma_indices_set_push(s: Seq<u8>, x: u8)
    ensures
        indices_set(s.push(x)) == if x < 128 {
            indices_set(s).insert(x as int)
        } else {
            indices_set(s)
        },
{
    let t = s.push(x);
    assert forall|i: int| #[trigger] indices_set(t).contains(i) implies (indices_set(s).contains(i)
        || (x < 128 && i == x)) by {
        let j = choose|j: int| 0 <= j < t.len() && t[j] as int == i;
        if j < s.len() {
            assert(s[j] == t[j]);
        }
    }
    assert forall|i: int| #[trigger] indices_set(s).contains(i) implies indices_set(t).contains(i) by {
        let j = choose|j: int| 0 <= j < s.len() && s[j] as int == i;
        assert(t[j] == s[j]);
    }
    if x < 128 {
        assert(t[s.len() as int] == x);
        assert(indices_set(t).contains(x as int));
        assert(indices_set(t) =~= indices_set(s).insert(x as int));
    } else {
        assert(indices_set(t) =~= indices_set(s));
    }
}

/// A memory-efficient 128-bit set for embedded environments.
#[derive(Clone, Copy, Debug, PartialEq, Eq, Structural, PartialOrd, Ord)]
pub struct BitSet128(u64, u64);

impl View for BitSet128 {
    type V = Set<int>;

    closed spec fn view(&self) -> Set<int> {
        words_set(self.0, self.1)
    }
}

impl BitSet128 {
    /// The bitset whose low word is `lo` and whose high word is `hi`.
    pub closed spec fn spec_from_words(lo: u64, hi: u64) -> BitSet128 {
        BitSet128(lo, hi)
    }

    /// The low word (indices `0..64`).
    pub closed spec fn low_word(self) -> u64 {
        self.0
    }

    /// The high word (indices `64..128`).
    pub closed spec fn high_word(self) -> u64 {
        self.1
    }

    /// A bitset is its two words.
    pub proof fn lemma_words(self)
        ensures
            self@ == words_set(self.low_word(), self.high_word()),
            self == Self::spec_from_words(self.low_word(), self.high_word()),
            forall|lo: u64, hi: u64| #[trigger]
                Self::spec_from_words(lo, hi).low_word() == lo
                    && Self::spec_from_words(lo, hi).high_word() == hi,
    {
    }

    /// Create a new empty bitset.
    pub fn new() -> (r: Self)
        ensures
            r@ == Set::<int>::empty(),
    {
        proof {
            lemma_word_const();
        }
        let r = Self(0, 0);
        assert(r@ =~= Set::<int>::empty());
        r
    }

    /// The bitset whose low word (indices `0..64`) is `low` and whose high word
    /// (indices `64..128`) is `high`.
    pub fn from_words(low: u64, high: u64) -> (r: Self)
        ensures
            r == Self::spec_from_words(low, high),
            r@ == words_set(low, high),
    {
        Self(low, high)
    }

    /// The low word (indices `0..64`) and the high word (indices `64..128`).
    pub fn to_words(&self) -> (r: (u64, u64))
        ensures
            r == (self.low_word(), self.high_word()),
            words_set(r.0, r.1) == self@,
    {
        (self.0, self.1)
    }

    /// Resets all bits to 0.
    pub fn reset_all(&mut self)
        ensures
            final(self)@ == Set::<int>::empty(),
    {
        proof {
            lemma_word_const();
        }
        self.0 = 0;
        self.1 = 0;
        assert(self@ =~= Set::<int>::empty());
    }

    /// Resets the bit at `index` to 0. Does nothing if the index is out of bounds.
    pub fn reset(&mut self, index: u8)
        ensures
            final(self)@ == old(self)@.remove(index as int),
            index >= 128 ==> *final(self) == *old(self),
    {
        if index < 64 {
            let k = index as u64;
            proof {
                lemma_word_single(self.0, k);
            }
            self.0 &= !(1u64 << k);
        } else if index < 128 {
            let k = (index - 64) as u64;
            proof {
                lemma_word_single(self.1, k);
            }
            self.1 &= !(1u64 << k);
        }
        assert(self@ =~= old(self)@.remove(index as int));
    }

    /// Sets all bits to 1.
    pub fn set_all(&mut self)
        ensures
            final(self)@ == index_range(),
    {
        proof {
            lemma_word_const();
        }
        self.0 = u64::MAX;
        self.1 = u64::MAX;
        assert(self@ =~= index_range());
    }

    /// Sets the bit at `index` to 1. Does nothing if the index is out of bounds.
    pub fn set(&mut self, index: u8)
        ensures
            final(self)@ == if index < 128 {
                old(self)@.insert(index as int)
            } else {
                old(self)@
            },
            index >= 128 ==> *final(self) == *old(self),
    {
        if index < 64 {
            let k = index as u64;
            proof {
                lemma_word_single(self.0, k);
            }
            self.0 |= 1u64 << k;
        } else if index < 128 {
            let k = (index - 64) as u64;
            proof {
                lemma_word_single(self.1, k);
            }
            self.1 |= 1u64 << k;
        }
        if index < 128 {
            assert(self@ =~= old(self)@.insert(index as int));
        }
    }

    /// Flips the bit at `index`. Does nothing if the index is out of bounds.
    pub fn flip(&mut self, index: u8)
        ensures
            final(self)@ == if index >= 128 {
                old(self)@
            } else if old(self)@.contains(index as int) {
                old(self)@.remove(index as int)
            } else {
                old(self)@.insert(index as int)
            },
            index >= 128 ==> *final(self) == *old(self),
    {
        if index < 64 {
            let k = index as u64;
            proof {
                lemma_word_single(self.0, k);
            }
            self.0 ^= 1u64 << k;
        } else if index < 128 {
            let k = (index - 64) as u64;
            proof {
                lemma_word_single(self.1, k);
            }
            self.1 ^= 1u64 << k;
        }
        proof {
            if index < 128 {
                if old(self)@.contains(index as int) {
                    assert(self@ =~= old(self)@.remove(index as int));
                } else {
                    assert(self@ =~= old(self)@.insert(index as int));
                }
            }
        }
    }

    /// Flips all bits in the bitset (0s become 1s, and 1s become 0s).
    pub fn flip_all(&mut self)
        ensures
            final(self)@ == index_range().difference(old(self)@),
    {
        proof {
            lemma_word_ops(self.0, self.0);
            lemma_word_ops(self.1, self.1);
        }
        self.0 = !self.0;
        self.1 = !self.1;
        assert(self@ =~= index_range().difference(old(self)@));
    }

    /// In-place Difference / Mask-Clear. Clears any bits that are set in `other`.
    /// This represents the mathematical operation: `self = self AND NOT other`.
    pub fn and_not(&mut self, other: Self)
        ensures
            final(self)@ == old(self)@.difference(other@),
    {
        proof {
            lemma_word_ops(self.0, other.0);
            lemma_word_ops(self.1, other.1);
        }
        self.0 &= !other.0;
        self.1 &= !other.1;
        assert(self@ =~= old(self)@.difference(other@));
    }

    /// Tests if the bit at `index` is 1.
    /// Returns false if the bit is 0 or index is out of bounds.
    pub fn test(&self, index: u8) -> (r: bool)
        ensures
            r == self@.contains(index as int),
    {
        if index < 64 {
            let k = index as u64;
            proof {
                lemma_word_single(self.0, k);
            }
            (self.0 & (1u64 << k)) != 0
        } else if index < 128 {
            let k = (index - 64) as u64;
            proof {
                lemma_word_single(self.1, k);
            }
            (self.1 & (1u64 << k)) != 0
        } else {
            false
        }
    }

    /// Returns an iterator over the indices of the set bits.
    pub fn iter(&self) -> (r: BitSet128Iter)
        ensures
            r@ == self@,
    {
        BitSet128Iter(self.0, self.1)
    }

    /// Returns an iterator over the indices of the set bits, consuming the bitset.
    pub fn into_iter(self) -> (r: BitSet128Iter)
        ensures
            r@ == self@,
    {
        BitSet128Iter(self.0, self.1)
    }

    /// The bitset holding every index of `indices` that is below 128; the others are ignored.
    pub fn from_iter(indices: &[u8]) -> (r: Self)
        ensures
            r@ == indices_set(indices@),
    {
        let mut bitset = Self::new();
        bitset.extend(indices);
        assert(bitset@ =~= indices_set(indices@));
        bitset
    }

    /// Sets every index of `indices` that is below 128; the others are ignored.
    pub fn extend(&mut self, indices: &[u8])
        ensures
            final(self)@ == old(self)@.union(indices_set(indices@)),
    {
        let n = indices.len();
        let mut k: usize = 0;
        assert(indices_set(indices@.take(0)) =~= Set::<int>::empty());
        assert(self@ =~= old(self)@.union(indices_set(indices@.take(0))));
        while k < n
            invariant
                n == indices@.len(),
                k <= n,
                self@ == old(self)@.union(indices_set(indices@.take(k as int))),
            decreases n - k,
        {
            let index = indices[k];
            self.set(index);
            proof {
                let before = indices@.take(k as int);
                let after = indices@.take(k + 1);
                assert(after =~= before.push(index));
                lemma_indices_set_push(before, index);
            }
            k = k + 1;
        }
        assert(indices@.take(n as int) =~= indices@);
    }

    /// Returns the number of set bits (population count).
    pub fn count_ones(&self) -> (r: u32)
        ensures
            r == self@.len(),
            r <= 128,
    {
        let a = count_word_ones(self.0);
        let b = count_word_ones(self.1);
        proof {
            lemma_words_set_len(self.0, self.1);
        }
        a + b
    }

    /// Returns the number of leading zeros in the bitset,
    /// counting from the most significant bit (index 127).
    pub fn leading_zeros(&self) -> (r: u32)
        ensures
            r == 127 - highest_below(self@, 128),
            r <= 128,
    {
        proof {
            lemma_highest_below(self@, 128);
            lemma_word_const();
        }
        if self.1 == 0 {
            let z = self.0.leading_zeros();
            proof {
                let lo = self.0;
                axiom_u64_leading_zeros(lo);
                let h = highest_below(self@, 128);
                if lo == 0 {
                    assert(h == -1) by {
                        assert forall|i: int| 0 <= i < 128 implies !self@.contains(i) by {
                            lemma_word_zero(lo);
                        }
                    }
                } else {
                    let k = 63 - z;
                    let v = lo >> (k as u64);
                    assert(v & 1u64 != 0u64 ==> v & 1u64 == 1u64) by (bit_vector);
                    assert(self@.contains(k));
                    assert forall|i: int| k < i < 128 implies !self@.contains(i) by {
                        if i < 64 {
                            let j = i as u64;
                            assert((lo >> j) & 1u64 == 0u64);
                        }
                    }
                    assert(h == k);
                }
            }
            64 + z
        } else {
            let z = self.1.leading_zeros();
            proof {
                let hi = self.1;
                axiom_u64_leading_zeros(hi);
                let h = highest_below(self@, 128);
                let k = 127 - z;
                let v = hi >> ((63 - z) as u64);
                assert(v & 1u64 != 0u64 ==> v & 1u64 == 1u64) by (bit_vector);
                assert(self@.contains(k));
                assert forall|i: int| k < i < 128 implies !self@.contains(i) by {
                    let j = (i - 64) as u64;
                    assert((hi >> j) & 1u64 == 0u64);
                }
                assert(h == k);
            }
            z
        }
    }

    /// Returns true if no bits are set.
    pub fn is_empty(&self) -> (r: bool)
        ensures
            r == (self@ == Set::<int>::empty()),
    {
        let r = self.0 == 0 && self.1 == 0;
        proof {
            lemma_word_const();
            if r {
                assert(self@ =~= Set::<int>::empty());
            } else if self.0 != 0 {
                lemma_word_lowest(self.0);
                assert(self@.contains(u64_trailing_zeros(self.0) as int));
            } else {
                lemma_word_lowest(self.1);
                assert(self@.contains(u64_trailing_zeros(self.1) + 64));
            }
        }
        r
    }

    /// Returns the highest index set, or None if the bitset is empty.
    /// Useful for finding the "top" of a priority queue or resource map.
    pub fn last_set(&self) -> (r: Option<u8>)
        ensures
            r == if highest_below(self@, 128) == -1 {
                None::<u8>
            } else {
                Some(highest_below(self@, 128) as u8)
            },
    {
        proof {
            lemma_highest_below(self@, 128);
        }
        let leading = self.leading_zeros();
        if leading == 128 {
            None
        } else {
            Some((127 - leading) as u8)
        }
    }

    /// Returns true if this bitset contains all the bits set in `other`.
    pub fn is_superset(&self, other: &Self) -> (r: bool)
        ensures
            r == other@.subset_of(self@),
    {
        let r = (self.0 & other.0) == other.0 && (self.1 & other.1) == other.1;
        proof {
            lemma_word_ops(self.0, other.0);
            lemma_word_ops(self.1, other.1);
            if other@.subset_of(self@) {
                assert forall|i: int| 0 <= i < 64 implies word_has(self.0 & other.0, i)
                    == word_has(other.0, i) by {
                    assert(other@.contains(i) ==> self@.contains(i));
                }
                lemma_word_ext(self.0 & other.0, other.0);
                assert forall|i: int| 0 <= i < 64 implies word_has(self.1 & other.1, i)
                    == word_has(other.1, i) by {
                    assert(other@.contains(i + 64) ==> self@.contains(i + 64));
                }
                lemma_word_ext(self.1 & other.1, other.1);
            }
        }
        r
    }

    /// Returns true if this bitset is a subset of `other`.
    pub fn is_subset(&self, other: &BitSet128) -> (r: bool)
        ensures
            r == self@.subset_of(other@),
    {
        other.is_superset(self)
    }

    /// Returns true if this bitset shares at least one common set bit with `other`.
    /// Returns false if there is no overlap or if either bitset is empty.
    pub fn intersects(&self, other: &Self) -> (r: bool)
        ensures
            r == !self@.disjoint(other@),
    {
        let r = (self.0 & other.0) != 0 || (self.1 & other.1) != 0;
        proof {
            lemma_word_ops(self.0, other.0);
            lemma_word_ops(self.1, other.1);
            if (self.0 & other.0) != 0 {
                lemma_word_lowest(self.0 & other.0);
                let t = u64_trailing_zeros(self.0 & other.0) as int;
                assert(self@.contains(t) && other@.contains(t));
            } else if (self.1 & other.1) != 0 {
                lemma_word_lowest(self.1 & other.1);
                let t = u64_trailing_zeros(self.1 & other.1) + 64;
                assert(self@.contains(t) && other@.contains(t));
            } else {
                lemma_word_zero(self.0 & other.0);
                lemma_word_zero(self.1 & other.1);
                assert forall|i: int| !(self@.contains(i) && other@.contains(i)) by {
                    if 0 <= i < 64 {
                        assert(!word_has(self.0 & other.0, i));
                    } else if 64 <= i < 128 {
                        assert(!word_has(self.1 & other.1, i - 64));
                    }
                }
            }
        }
        r
    }
}

/// Two bitsets are equal exactly when they hold the same indices.
pub proof fn lemma_view_injective(a: BitSet128, b: BitSet128)
    ensures
        a@ == b@ <==> a == b,
{
    if a@ == b@ {
        assert forall|i: int| 0 <= i < 64 implies word_has(a.0, i) == word_has(b.0, i) by {
            assert(a@.contains(i) == b@.contains(i));
        }
        assert forall|i: int| 0 <= i < 64 implies word_has(a.1, i) == word_has(b.1, i) by {
            assert(a@.contains(i + 64) == b@.contains(i + 64));
        }
        lemma_word_ext(a.0, b.0);
        lemma_word_ext(a.1, b.1);
    }
}

/// Every bitset holds a finite set of indices in `0..128`, of size at most 128.
pub proof fn lemma_view_bounded(b: BitSet128)
    ensures
        b@.finite(),
        b@.subset_of(index_range()),
        b@.len() <= 128,
{
    lemma_words_set_len(b.0, b.1);
}

/// The indices held after converting one 32-bit value: its bits, at indices `0..32`.
pub open spec fn set_of_u32(a: u32) -> Set<int> {
    Set::new(|i: int| 0 <= i < 32 && word_has(a as u64, i))
}

/// The indices held after converting `(a, b)`: the bits of `b` at indices `0..32` and
/// those of `a` at indices `32..64`.
pub open spec fn set_of_u32_pair(a: u32, b: u32) -> Set<int> {
    Set::new(
        |i: int|
            (0 <= i < 32 && word_has(b as u64, i)) || (32 <= i < 64 && word_has(a as u64, i - 32)),
    )
}

/// The indices held after converting `(a, b, c, d)`: the bits of `b`, `a`, `d` and `c` at
/// indices `0..32`, `32..64`, `64..96` and `96..128` in that order.
pub open spec fn set_of_u32_quad(a: u32, b: u32, c: u32, d: u32) -> Set<int> {
    Set::new(
        |i: int|
            (0 <= i < 32 && word_has(b as u64, i)) || (32 <= i < 64 && word_has(a as u64, i - 32))
                || (64 <= i < 96 && word_has(d as u64, i - 64)) || (96 <= i < 128 && word_has(
                c as u64,
                i - 96,
            )),
    )
}

impl Default for BitSet128 {
    fn default() -> (r: Self)
        ensures
            r@ == Set::<int>::empty(),
    {
        Self::new()
    }
}

// **** Bit operations ****

impl BitOr for BitSet128 {
    type Output = Self;

    fn bitor(self, rhs: Self) -> (r: Self)
        ensures
            r@ == self@.union(rhs@),
    {
        proof {
            lemma_word_ops(self.0, rhs.0);
            lemma_word_ops(self.1, rhs.1);
        }
        let r = Self(self.0 | rhs.0, self.1 | rhs.1);
        assert(r@ =~= self@.union(rhs@));
        r
    }
}

impl vstd::std_specs::ops::BitOrSpecImpl for BitSet128 {
    open spec fn obeys_bitor_spec() -> bool {
        true
    }

    open spec fn bitor_req(self, rhs: BitSet128) -> bool {
        true
    }

    closed spec fn bitor_spec(self, rhs: BitSet128) -> BitSet128 {
        BitSet128(self.0 | rhs.0, self.1 | rhs.1)
    }
}

impl BitAnd for BitSet128 {
    type Output = Self;

    fn bitand(self, rhs: Self) -> (r: Self)
        ensures
            r@ == self@.intersect(rhs@),
    {
        proof {
            lemma_word_ops(self.0, rhs.0);
            lemma_word_ops(self.1, rhs.1);
        }
        let r = Self(self.0 & rhs.0, self.1 & rhs.1);
        assert(r@ =~= self@.intersect(rhs@));
        r
    }
}

impl vstd::std_specs::ops::BitAndSpecImpl for BitSet128 {
    open spec fn obeys_bitand_spec() -> bool {
        true
    }

    open spec fn bitand_req(self, rhs: BitSet128) -> bool {
        true
    }

    closed spec fn bitand_spec(self, rhs: BitSet128) -> BitSet128 {
        BitSet128(self.0 & rhs.0, self.1 & rhs.1)
    }
}

impl BitXor for BitSet128 {
    type Output = Self;

    fn bitxor(self, rhs: Self) -> (r: Self)
        ensures
            r@ == self@.difference(rhs@).union(rhs@.difference(self@)),
    {
        proof {
            lemma_word_ops(self.0, rhs.0);
            lemma_word_ops(self.1, rhs.1);
        }
        let r = Self(self.0 ^ rhs.0, self.1 ^ rhs.1);
        assert(r@ =~= self@.difference(rhs@).union(rhs@.difference(self@)));
        r
    }
}

impl vstd::std_specs::ops::BitXorSpecImpl for BitSet128 {
    open spec fn obeys_bitxor_spec() -> bool {
        true
    }

    open spec fn bitxor_req(self, rhs: BitSet128) -> bool {
        true
    }

    closed spec fn bitxor_spec(self, rhs: BitSet128) -> BitSet128 {
        BitSet128(self.0 ^ rhs.0, self.1 ^ rhs.1)
    }
}

impl BitOrAssign for BitSet128 {
    fn bitor_assign(&mut self, rhs: Self)
        ensures
            final(self)@ == old(self)@.union(rhs@),
    {
        proof {
            lemma_word_ops(self.0, rhs.0);
            lemma_word_ops(self.1, rhs.1);
        }
        self.0 |= rhs.0;
        self.1 |= rhs.1;
        assert(self@ =~= old(self)@.union(rhs@));
    }
}

impl BitAndAssign for BitSet128 {
    fn bitand_assign(&mut self, rhs: Self)
        ensures
            final(self)@ == old(self)@.intersect(rhs@),
    {
        proof {
            lemma_word_ops(self.0, rhs.0);
            lemma_word_ops(self.1, rhs.1);
        }
        self.0 &= rhs.0;
        self.1 &= rhs.1;
        assert(self@ =~= old(self)@.intersect(rhs@));
    }
}

impl BitXorAssign for BitSet128 {
    fn bitxor_assign(&mut self, rhs: Self)
        ensures
            final(self)@ == old(self)@.difference(rhs@).union(rhs@.difference(old(self)@)),
    {
        proof {
            lemma_word_ops(self.0, rhs.0);
            lemma_word_ops(self.1, rhs.1);
        }
        self.0 ^= rhs.0;
        self.1 ^= rhs.1;
        assert(self@ =~= old(self)@.difference(rhs@).union(rhs@.difference(old(self)@)));
    }
}

impl Index<u8> for BitSet128 {
    type Output = bool;

    fn index(&self, index: u8) -> (r: &bool)
        ensures
            *r == self@.contains(index as int),
    {
        if self.test(index) {
            &true
        } else {
            &false
        }
    }
}

impl vstd::std_specs::core::IndexSpecImpl<u8> for BitSet128 {
    open spec fn index_req(&self, index: &u8) -> bool {
        true
    }
}

impl Index<usize> for BitSet128 {
    type Output = bool;

    /// Reads the bit at `index` truncated to its lowest 8 bits.
    fn index(&self, index: usize) -> (r: &bool)
        ensures
            *r == self@.contains((index as u8) as int),
    {
        if self.test(index as u8) {
            &true
        } else {
            &false
        }
    }
}

impl vstd::std_specs::core::IndexSpecImpl<usize> for BitSet128 {
    open spec fn index_req(&self, index: &usize) -> bool {
        true
    }
}

/// `BitSet128` from `u32`.
impl From<u32> for BitSet128 {
    fn from(a: u32) -> (r: Self)
        ensures
            r@ == set_of_u32(a),
            r.low_word() == a as u64,
            r.high_word() == 0,
            forall|i: int| #[trigger]
                r@.contains(i) == (0 <= i < 32 && (a >> (i as u32)) & 1u32 == 1u32),
    {
        proof {
            lemma_word_const();
            lemma_halves(0, a);
        }
        let r = Self(a as u64, 0);
        assert(r@ =~= set_of_u32(a));
        proof {
            lemma_widened_bits(a);
        }
        r
    }
}

impl vstd::std_specs::convert::FromSpecImpl<u32> for BitSet128 {
    open spec fn obeys_from_spec() -> bool {
        true
    }

    closed spec fn from_spec(v: u32) -> BitSet128 {
        BitSet128(v as u64, 0)
    }
}

/// `BitSet128` from `(u32, u32)`.
impl From<(u32, u32)> for BitSet128 {
    fn from(v: (u32, u32)) -> (r: Self)
        ensures
            r@ == set_of_u32_pair(v.0, v.1),
            r.low_word() == ((v.0 as u64) << 32u64) | (v.1 as u64),
            r.high_word() == 0,
            forall|i: int|
                0 <= i < 32 ==> (#[trigger] r@.contains(i) == ((v.1 >> (i as u32)) & 1u32 == 1u32)
                    && r@.contains(i + 32) == ((v.0 >> (i as u32)) & 1u32 == 1u32)),
            forall|i: int| 64 <= i ==> !#[trigger] r@.contains(i),
    {
        let (a, b) = v;
        proof {
            lemma_word_const();
            lemma_halves(a, b);
        }
        let r = Self((a as u64) << 32u64 | (b as u64), 0);
        assert(r.0 == join_halves(a, b));
        assert(r@ =~= set_of_u32_pair(a, b));
        proof {
            lemma_widened_bits(a);
            lemma_widened_bits(b);
        }
        r
    }
}

impl vstd::std_specs::convert::FromSpecImpl<(u32, u32)> for BitSet128 {
    open spec fn obeys_from_spec() -> bool {
        true
    }

    closed spec fn from_spec(v: (u32, u32)) -> BitSet128 {
        BitSet128(join_halves(v.0, v.1), 0)
    }
}

/// `BitSet128` from `(u32, u32, u32, u32)`.
impl From<(u32, u32, u32, u32)> for BitSet128 {
    fn from(v: (u32, u32, u32, u32)) -> (r: Self)
        ensures
            r@ == set_of_u32_quad(v.0, v.1, v.2, v.3),
            r.low_word() == ((v.0 as u64) << 32u64) | (v.1 as u64),
            r.high_word() == ((v.2 as u64) << 32u64) | (v.3 as u64),
            forall|i: int|
                0 <= i < 32 ==> (#[trigger] r@.contains(i) == ((v.1 >> (i as u32)) & 1u32 == 1u32)
                    && r@.contains(i + 32) == ((v.0 >> (i as u32)) & 1u32 == 1u32) && r@.contains(
                    i + 64,
                ) == ((v.3 >> (i as u32)) & 1u32 == 1u32) && r@.contains(i + 96) == ((v.2 >> (
                i as u32)) & 1u32 == 1u32)),
    {
        let (a, b, c, d) = v;
        proof {
            lemma_halves(a, b);
            lemma_halves(c, d);
        }
        let r = Self((a as u64) << 32u64 | (b as u64), (c as u64) << 32u64 | (d as u64));
        assert(r.0 == join_halves(a, b));
        assert(r.1 == join_halves(c, d));
        assert(r@ =~= set_of_u32_quad(a, b, c, d));
        proof {
            lemma_widened_bits(a);
            lemma_widened_bits(b);
            lemma_widened_bits(c);
            lemma_widened_bits(d);
        }
        r
    }
}

impl vstd::std_specs::convert::FromSpecImpl<(u32, u32, u32, u32)> for BitSet128 {
    open spec fn obeys_from_spec() -> bool {
        true
    }

    closed spec fn from_spec(v: (u32, u32, u32, u32)) -> BitSet128 {
        BitSet128(join_halves(v.0, v.1), join_halves(v.2, v.3))
    }
}

/// Converting a `u32` puts its bits at indices `0..32`: the low word is the value widened,
/// the high word is zero, and index `i` is a member exactly when `i < 32` and bit `i` of
/// the value is set.
pub proof fn lemma_from_u32(a: u32)
    ensures
        <BitSet128 as FromSpec<u32>>::from_spec(a).low_word() == a as u64,
        <BitSet128 as FromSpec<u32>>::from_spec(a).high_word() == 0,
        forall|i: int| #[trigger]
            <BitSet128 as FromSpec<u32>>::from_spec(a)@.contains(i) == (0 <= i < 32 && (a >> (
            i as u32)) & 1u32 == 1u32),
{
    lemma_word_const();
    lemma_widened_bits(a);
}

/// Converting `(a, b)` gives the low word `(a << 32) | b` computed in 64 bits and a zero
/// high word: index `i < 32` is a member exactly when bit `i` of `b` is set, index `32 + i`
/// exactly when bit `i` of `a` is set, and no index from 64 on is a member.
pub proof fn lemma_from_u32_pair(a: u32, b: u32)
    ensures
        <BitSet128 as FromSpec<(u32, u32)>>::from_spec((a, b)).low_word() == ((a as u64)
            << 32u64) | (b as u64),
        <BitSet128 as FromSpec<(u32, u32)>>::from_spec((a, b)).high_word() == 0,
        forall|i: int|
            0 <= i < 32 ==> (#[trigger] <BitSet128 as FromSpec<(u32, u32)>>::from_spec(
                (a, b),
            )@.contains(i) == ((b >> (i as u32)) & 1u32 == 1u32) && <BitSet128 as FromSpec<
                (u32, u32),
            >>::from_spec((a, b))@.contains(i + 32) == ((a >> (i as u32)) & 1u32 == 1u32)),
        forall|i: int|
            64 <= i ==> !#[trigger] <BitSet128 as FromSpec<(u32, u32)>>::from_spec(
                (a, b),
            )@.contains(i),
{
    lemma_word_const();
    lemma_halves(a, b);
    lemma_widened_bits(a);
    lemma_widened_bits(b);
}

/// Converting `(a, b, c, d)` gives the low word `(a << 32) | b` and the high word
/// `(c << 32) | d`, computed in 64 bits: for `i < 32`, indices `i`, `32 + i`, `64 + i` and
/// `96 + i` are members exactly when bit `i` of `b`, `a`, `d` and `c` respectively is set.
pub proof fn lemma_from_u32_quad(a: u32, b: u32, c: u32, d: u32)
    ensures
        <BitSet128 as FromSpec<(u32, u32, u32, u32)>>::from_spec((a, b, c, d)).low_word() == ((
        a as u64) << 32u64) | (b as u64),
        <BitSet128 as FromSpec<(u32, u32, u32, u32)>>::from_spec((a, b, c, d)).high_word() == ((
        c as u64) << 32u64) | (d as u64),
        forall|i: int|
            0 <= i < 32 ==> #[trigger] <BitSet128 as FromSpec<(u32, u32, u32, u32)>>::from_spec((a, b, c, d))@.contains(i) == ((b >> (i as u32)) & 1u32 == 1u32),
        forall|i: int|
            0 <= i < 32 ==> #[trigger] <BitSet128 as FromSpec<(u32, u32, u32, u32)>>::from_spec((a, b, c, d))@.contains(i + 32) == ((a >> (i as u32)) & 1u32 == 1u32),
        forall|i: int|
            0 <= i < 32 ==> #[trigger] <BitSet128 as FromSpec<(u32, u32, u32, u32)>>::from_spec((a, b, c, d))@.contains(i + 64) == ((d >> (i as u32)) & 1u32 == 1u32),
        forall|i: int|
            0 <= i < 32 ==> #[trigger] <BitSet128 as FromSpec<(u32, u32, u32, u32)>>::from_spec((a, b, c, d))@.contains(i + 96) == ((c >> (i as u32)) & 1u32 == 1u32),
{
    lemma_halves(a, b);
    lemma_halves(c, d);
    lemma_widened_bits(a);
    lemma_widened_bits(b);
    lemma_widened_bits(c);
    lemma_widened_bits(d);
}

// **** Iter ****

/// An iterator over the indices of a `BitSet128`, yielding them in increasing order.
#[derive(Debug, PartialEq, Eq, Structural)]
pub struct BitSet128Iter(u64, u64);

impl View for BitSet128Iter {
    type V = Set<int>;

    /// The indices not yet yielded.
    closed spec fn view(&self) -> Set<int> {
        words_set(self.0, self.1)
    }
}

impl Default for BitSet128Iter {
    fn default() -> (r: Self)
        ensures
            r@ == Set::<int>::empty(),
    {
        proof {
            lemma_word_const();
        }
        let r = BitSet128Iter(0, 0);
        assert(r@ =~= Set::<int>::empty());
        r
    }
}

impl BitSet128Iter {
    /// Yields the smallest index not yet yielded, or `None` once none is left.
    pub fn next(&mut self) -> (r: Option<u8>)
        ensures
            match r {
                None => old(self)@ == Set::<int>::empty() && *final(self) == *old(self),
                Some(k) => {
                    &&& old(self)@.contains(k as int)
                    &&& forall|i: int| old(self)@.contains(i) ==> k <= i
                    &&& final(self)@ == old(self)@.remove(k as int)
                },
            },
    {
        if self.0 == 0 {
            if self.1 == 0 {
                proof {
                    lemma_word_const();
                    assert(self@ =~= Set::<int>::empty());
                }
                None
            } else {
                let t = self.1.trailing_zeros();
                proof {
                    lemma_word_const();
                    lemma_word_lowest(self.1);
                    lemma_word_clear_lowest(self.1);
                }
                let index = t as u8;
                self.1 &= self.1 - 1;
                proof {
                    let k = index + 64;
                    assert(old(self)@.contains(k));
                    assert forall|i: int| old(self)@.contains(i) implies k <= i by {
                        if i < k && i >= 64 {
                            assert(!word_has(old(self).1, i - 64));
                        }
                    }
                    assert(self@ =~= old(self)@.remove(k));
                }
                Some(index + 64)
            }
        } else {
            let t = self.0.trailing_zeros();
            proof {
                lemma_word_lowest(self.0);
                lemma_word_clear_lowest(self.0);
            }
            let index = t as u8;
            self.0 &= self.0 - 1;
            proof {
                let k = index as int;
                assert(old(self)@.contains(k));
                assert forall|i: int| old(self)@.contains(i) implies k <= i by {
                    if i < k {
                        assert(!word_has(old(self).0, i));
                    }
                }
                assert(self@ =~= old(self)@.remove(k));
            }
            Some(index)
        }
    }

    /// The number of indices left to yield, as a lower and an upper bound.
    pub fn size_hint(&self) -> (r: (usize, Option<usize>))
        ensures
            r.0 == self@.len(),
            r.1 == Some(r.0),
    {
        let len = self.len();
        (len, Some(len))
    }

    /// The number of indices left to yield.
    pub fn len(&self) -> (r: usize)
        ensures
            r == self@.len(),
    {
        let a = count_word_ones(self.0);
        let b = count_word_ones(self.1);
        proof {
            lemma_words_set_len(self.0, self.1);
        }
        (a + b) as usize
    }

    /// Consumes the iterator, returning the number of indices it had left to yield.
    pub fn count(self) -> (r: usize)
        ensures
            r == self@.len(),
    {
        self.len()
    }
}

} // verus!
