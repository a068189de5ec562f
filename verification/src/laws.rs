//! Properties of `BitSet128` that relate several of its operations.
use vstd::prelude::*;
use crate::bitset128::{
    BitSet128, index_range, highest_below, lemma_highest_below, lemma_view_bounded,
    lemma_view_injective,
};

verus! {

/// Flipping every bit twice gives back the same bitset.
pub proof fn lemma_flip_all_twice(a: BitSet128, once: BitSet128, twice: BitSet128)
    requires
        once@ == index_range().difference(a@),
        twice@ == index_range().difference(once@),
    ensures
        twice == a,
{
    lemma_view_bounded(a);
    assert(twice@ =~= a@);
    lemma_view_injective(twice, a);
}

/// Flipping every bit of the empty bitset gives the bitset with every bit set.
pub proof fn lemma_flip_all_empty(e: BitSet128, flipped: BitSet128, full: BitSet128)
    requires
        e@ == Set::<int>::empty(),
        flipped@ == index_range().difference(e@),
        full@ == index_range(),
    ensures
        flipped == full,
{
    assert(flipped@ =~= full@);
    lemma_view_injective(flipped, full);
}

/// A bitset is empty exactly when it counts no set bit, and exactly when it has no highest
/// index (so that its leading-zero count is 128 and `last_set` gives `None`).
pub proof fn lemma_empty_equivalences(b: BitSet128)
    ensures
        b@ == Set::<int>::empty() <==> b@.len() == 0,
        b@ == Set::<int>::empty() <==> highest_below(b@, 128) == -1,
{
    lemma_view_bounded(b);
    lemma_highest_below(b@, 128);
    if b@.len() == 0 {
        b@.lemma_len0_is_empty();
    }
    if highest_below(b@, 128) == -1 {
        assert(b@ =~= Set::<int>::empty());
    }
}

/// When a bitset is not empty, its highest index is its largest member.
pub proof fn lemma_highest_is_max(b: BitSet128)
    ensures
        highest_below(b@, 128) != -1 ==> {
            &&& b@.contains(highest_below(b@, 128))
            &&& forall|i: int| b@.contains(i) ==> i <= highest_below(b@, 128)
        },
{
    lemma_view_bounded(b);
    lemma_highest_below(b@, 128);
}

/// Sharing a bit is symmetric.
pub proof fn lemma_intersects_symmetric(a: BitSet128, b: BitSet128)
    ensures
        a@.disjoint(b@) == b@.disjoint(a@),
{
}

/// A run of calls of `next` on an iterator: `states[t]` is what is left to yield before the
/// call that yields `ys[t]`, which is the least of it and is then removed; the run ends when
/// nothing is left.
pub open spec fn is_drain(states: Seq<Set<int>>, ys: Seq<int>) -> bool {
    &&& states.len() == ys.len() + 1
    &&& states[ys.len() as int] == Set::<int>::empty()
    &&& forall|t: int|
        #![trigger ys[t]]
        0 <= t < ys.len() ==> {
            &&& states[t].contains(ys[t])
            &&& (forall|i: int| states[t].contains(i) ==> ys[t] <= i)
            &&& states[t + 1] == states[t].remove(ys[t])
        }
}

/// Draining an iterator yields every index it started with, each exactly once and in
/// increasing order, so it yields as many indices as the set had members.
pub proof fn lemma_drain(states: Seq<Set<int>>, ys: Seq<int>)
    requires
        is_drain(states, ys),
        states[0].finite(),
    ensures
        forall|a: int, b: int| 0 <= a < b < ys.len() ==> ys[a] < ys[b],
        forall|i: int| states[0].contains(i) <==> ys.contains(i),
        ys.len() == states[0].len(),
    decreases ys.len(),
{
    if ys.len() == 0 {
        assert(states[0] == Set::<int>::empty());
    } else {
        let rest_states = states.drop_first();
        let rest_ys = ys.drop_first();
        assert forall|t: int| 0 <= t < rest_ys.len() implies {
            &&& rest_states[t].contains(#[trigger] rest_ys[t])
            &&& (forall|i: int| rest_states[t].contains(i) ==> rest_ys[t] <= i)
            &&& rest_states[t + 1] == rest_states[t].remove(rest_ys[t])
        } by {
            assert(ys[t + 1] == rest_ys[t]);
        }
        let first = ys[0];
        assert(states[1] == states[0].remove(first));
        assert(rest_states[0] == states[1]);
        assert(states[1].finite());
        assert(is_drain(rest_states, rest_ys));
        lemma_drain(rest_states, rest_ys);
        assert forall|a: int, b: int| 0 <= a < b < ys.len() implies ys[a] < ys[b] by {
            if a == 0 {
                assert(ys[b] == rest_ys[b - 1]);
                assert(rest_ys.contains(ys[b]));
                assert(states[1].contains(ys[b]));
            } else {
                assert(ys[a] == rest_ys[a - 1]);
                assert(ys[b] == rest_ys[b - 1]);
            }
        }
        assert forall|i: int| states[0].contains(i) <==> ys.contains(i) by {
            if states[0].contains(i) && i != first {
                assert(states[1].contains(i));
                assert(rest_ys.contains(i));
                let t = choose|t: int| 0 <= t < rest_ys.len() && rest_ys[t] == i;
                assert(ys[t + 1] == i);
            }
            if ys.contains(i) && i != first {
                let t = choose|t: int| 0 <= t < ys.len() && ys[t] == i;
                assert(rest_ys[t - 1] == i);
                assert(rest_ys.contains(i));
            }
            if i == first {
                assert(ys[0] == i);
            }
        }
    }
}

} // verus!
