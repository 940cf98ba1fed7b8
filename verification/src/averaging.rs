//! Integer bookkeeping of template averaging and matching: grouping the
//! templates of each word, and the median template length.
use vstd::prelude::*;
use vstd::relations::{sorted_by, total_ordering};
use vstd::seq_lib::{lemma_sorted_unique, to_multiset_build, to_multiset_insert};

use crate::vocabulary::{sorted_distinct_words, str_eq, strictly_sorted, strings_view};

verus! {

/// The positions of `w` in `words`, in increasing order.
pub open spec fn indices_of(words: Seq<Seq<char>>, w: Seq<char>) -> Seq<int>
    decreases words.len(),
{
    if words.len() == 0 {
        Seq::empty()
    } else {
        let prev = indices_of(words.drop_last(), w);
        if words.last() == w {
            prev.push(words.len() - 1)
        } else {
            prev
        }
    }
}

/// A sequence of indices as integers.
pub open spec fn indices_view(v: Seq<usize>) -> Seq<int> {
    Seq::new(v.len(), |i: int| v[i] as int)
}

/// The words of `words` with, for each, the positions at which it occurs:
/// one group per distinct word, in alphabetical order, each listing its
/// positions in increasing order.
pub fn group_indices_by_word(words: &[String]) -> (groups: Vec<(String, Vec<usize>)>)
    ensures
        strictly_sorted(Seq::new(groups@.len(), |g: int| groups@[g].0@)),
        forall|w: Seq<char>|
            Seq::new(groups@.len(), |g: int| groups@[g].0@).contains(w) <==> strings_view(
                words@,
            ).contains(w),
        forall|g: int|
            0 <= g < groups@.len() ==> indices_view((#[trigger] groups@[g]).1@) == indices_of(
                strings_view(words@),
                groups@[g].0@,
            ),
{
    let sorted = sorted_distinct_words(words);
    let mut groups: Vec<(String, Vec<usize>)> = Vec::new();
    let mut g: usize = 0;
    while g < sorted.len()
        invariant
            g <= sorted@.len(),
            groups@.len() == g,
            forall|k: int| 0 <= k < g ==> (#[trigger] groups@[k]).0@ == sorted@[k]@,
            forall|k: int|
                0 <= k < g ==> indices_view((#[trigger] groups@[k]).1@) == indices_of(
                    strings_view(words@),
                    groups@[k].0@,
                ),
        decreases sorted@.len() - g,
    {
        let w = &sorted[g];
        let mut idx: Vec<usize> = Vec::new();
        let mut i: usize = 0;
        while i < words.len()
            invariant
                i <= words@.len(),
                indices_view(idx@) == indices_of(strings_view(words@).take(i as int), w@),
            decreases words@.len() - i,
        {
            let ghost before = idx@;
            assert(strings_view(words@).take(i + 1).drop_last() =~= strings_view(words@).take(
                i as int,
            ));
            assert(strings_view(words@).take(i + 1).last() == words@[i as int]@);
            if str_eq(words[i].as_str(), w.as_str()) {
                idx.push(i);
                assert(indices_view(idx@) =~= indices_view(before).push(i as int));
            }
            i = i + 1;
        }
        assert(strings_view(words@).take(words@.len() as int) =~= strings_view(words@));
        groups.push((w.clone(), idx));
        g = g + 1;
    }
    assert(Seq::new(groups@.len(), |k: int| groups@[k].0@) =~= strings_view(sorted@));
    groups
}

/// The order `<=` on lengths.
pub open spec fn length_le() -> spec_fn(usize, usize) -> bool {
    |a: usize, b: usize| a <= b
}

proof fn lemma_length_le_total()
    ensures
        total_ordering(length_le()),
{
}

/// `lengths` in increasing order.
pub fn sorted_lengths(lengths: &[usize]) -> (sorted: Vec<usize>)
    ensures
        sorted@ == lengths@.sort_by(length_le()),
{
    let mut sorted: Vec<usize> = Vec::new();
    let mut i: usize = 0;
    assert(lengths@.take(0) =~= Seq::<usize>::empty());
    while i < lengths.len()
        invariant
            i <= lengths@.len(),
            sorted_by(sorted@, length_le()),
            sorted@.to_multiset() == lengths@.take(i as int).to_multiset(),
        decreases lengths@.len() - i,
    {
        let x = lengths[i];
        let mut p: usize = 0;
        while p < sorted.len() && sorted[p] <= x
            invariant
                p <= sorted@.len(),
                forall|k: int| 0 <= k < p ==> sorted@[k] <= x,
            decreases sorted@.len() - p,
        {
            p = p + 1;
        }
        let ghost old_sorted = sorted@;
        sorted.insert(p, x);
        proof {
            assert(sorted@ =~= old_sorted.insert(p as int, x));
            assert forall|a: int, b: int| 0 <= a < b < sorted@.len() implies #[trigger] (
            length_le())(sorted@[a], sorted@[b]) by {
                assert(sorted_by(old_sorted, length_le()));
                if b < p {
                    assert((length_le())(old_sorted[a], old_sorted[b]));
                } else if b == p {
                } else if a == p {
                    assert((length_le())(old_sorted[p as int], old_sorted[b - 1]) || b - 1 == p);
                } else if a < p {
                    assert((length_le())(old_sorted[a], old_sorted[b - 1]));
                } else {
                    assert((length_le())(old_sorted[a - 1], old_sorted[b - 1]));
                }
            }
            to_multiset_insert(old_sorted, p as int, x);
            assert(lengths@.take(i + 1) =~= lengths@.take(i as int).push(x));
            to_multiset_build(lengths@.take(i as int), x);
        }
        i = i + 1;
    }
    proof {
        assert(lengths@.take(lengths@.len() as int) =~= lengths@);
        lemma_length_le_total();
        lengths@.lemma_sort_by_ensures(length_le());
        lemma_sorted_unique(sorted@, lengths@.sort_by(length_le()), length_le());
    }
    sorted
}

/// The median of `lengths`: the element at position `len / 2` of the
/// lengths in increasing order (the upper median for an even count).
pub fn median_length(lengths: &[usize]) -> (median: usize)
    requires
        lengths@.len() > 0,
    ensures
        median == lengths@.sort_by(length_le())[(lengths@.len() / 2) as int],
{
    let sorted = sorted_lengths(lengths);
    proof {
        lemma_length_le_total();
        lengths@.lemma_sort_by_ensures(length_le());
        vstd::seq_lib::to_multiset_len(lengths@);
        vstd::seq_lib::to_multiset_len(sorted@);
    }
    sorted[lengths.len() / 2]
}

} // verus!
