//! Reordering a deck: a Fisher-Yates shuffle driven by a linear
//! congruential generator, so that one seed always gives one order.

use crate::deck::Card;
use vstd::prelude::*;
use vstd::seq_lib::to_multiset_update;

verus! {

/// `<[T]>::swap` of std: exchanges the elements at two positions of a
/// slice and panics where either is out of bounds. Trusted: that within
/// bounds the two elements change places and all others stay.
pub assume_specification<T>[ <[T]>::swap ](slice: &mut [T], a: usize, b: usize)
    requires
        a < old(slice)@.len(),
        b < old(slice)@.len(),
    ensures
        final(slice)@ == old(slice)@.update(a as int, old(slice)@[b as int]).update(
            b as int,
            old(slice)@[a as int],
        ),
;

/// The generator's next state.
pub open spec fn lcg_next(rng: usize) -> usize {
    rng.wrapping_mul(1103515245).wrapping_add(12345)
}

/// `s` with the elements at `i` and `j` exchanged.
pub open spec fn swapped<E>(s: Seq<E>, i: int, j: int) -> Seq<E> {
    s.update(i, s[j]).update(j, s[i])
}

/// The shuffle from position `i` down: each position from `i` to 1 in
/// turn changes places with one drawn at or below it.
pub open spec fn shuffle_from<E>(s: Seq<E>, rng: usize, i: int) -> Seq<E>
    decreases i,
{
    if i <= 0 || i >= s.len() {
        s
    } else {
        let next = lcg_next(rng);
        shuffle_from(swapped(s, i, next as int % (i + 1)), next, i - 1)
    }
}

/// `s` in the order that the seed gives.
pub open spec fn shuffled<E>(s: Seq<E>, seed: usize) -> Seq<E> {
    shuffle_from(s, seed, s.len() - 1)
}

/// Exchanging two elements keeps the length and the elements.
pub proof fn lemma_swapped_permutes<E>(s: Seq<E>, i: int, j: int)
    requires
        0 <= i < s.len(),
        0 <= j < s.len(),
    ensures
        swapped(s, i, j).len() == s.len(),
        swapped(s, i, j).to_multiset() == s.to_multiset(),
{
    broadcast use vstd::multiset::group_multiset_axioms;

    let mid = s.update(i, s[j]);
    if i == j {
        assert(swapped(s, i, j) =~= s);
    } else {
        to_multiset_update(s, i, s[j]);
        to_multiset_update(mid, j, s[i]);
        s.to_multiset_ensures();
        assert(s.contains(s[i]) && s.contains(s[j]));
        assert(mid[j] == s[j]);
        assert(swapped(s, i, j).to_multiset() =~= s.to_multiset());
    }
}

/// A shuffle keeps the length and the elements: it only reorders.
pub proof fn lemma_shuffle_from_permutes<E>(s: Seq<E>, rng: usize, i: int)
    ensures
        shuffle_from(s, rng, i).len() == s.len(),
        shuffle_from(s, rng, i).to_multiset() == s.to_multiset(),
    decreases i,
{
    if 0 < i < s.len() {
        let next = lcg_next(rng);
        let j = next as int % (i + 1);
        lemma_swapped_permutes(s, i, j);
        lemma_shuffle_from_permutes(swapped(s, i, j), next, i - 1);
    }
}

/// A shuffle keeps the multiset of what it shuffles, whatever the seed.
pub proof fn lemma_shuffled_permutes<E>(s: Seq<E>, seed: usize)
    ensures
        shuffled(s, seed).len() == s.len(),
        shuffled(s, seed).to_multiset() == s.to_multiset(),
{
    lemma_shuffle_from_permutes(s, seed, s.len() - 1);
}

/// Puts `cards` in the order that `seed` gives. Decks of fewer than two
/// cards stay as they are.
pub fn shuffle_cards(cards: &mut Vec<Card>, seed: usize)
    ensures
        final(cards).deep_view() == shuffled(old(cards).deep_view(), seed),
        final(cards)@.len() == old(cards)@.len(),
        final(cards).deep_view().to_multiset() == old(cards).deep_view().to_multiset(),
{
    let len = cards.len();
    proof {
        lemma_shuffled_permutes(old(cards).deep_view(), seed);
    }
    if len <= 1 {
        return ;
    }
    let mut rng = seed;
    let mut i: usize = len - 1;
    while i > 0
        invariant
            i < len,
            len == cards@.len(),
            len == old(cards)@.len(),
            shuffle_from(cards.deep_view(), rng, i as int) == shuffled(
                old(cards).deep_view(),
                seed,
            ),
        decreases i,
    {
        rng = rng.wrapping_mul(1103515245).wrapping_add(12345);
        let j = rng % (i + 1);
        let ghost before = cards.deep_view();
        cards.as_mut_slice().swap(i, j);
        assert(cards.deep_view() =~= swapped(before, i as int, j as int));
        i -= 1;
    }
}

} // verus!
