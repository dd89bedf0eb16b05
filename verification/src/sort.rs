//! Sorting counted words into the order of a ranking, by merging.

use crate::rank::{lemma_not_outranked_chain, lemma_outranks_asymmetric, outranks, ranked};
use crate::word_index::{CountedWord, Tally};
use vstd::prelude::*;
use vstd::seq_lib::{lemma_multiset_commutative, to_multiset_build};

verus! {

/// Whether no tally of `s` outranks a later one: the order of a ranking,
/// read from the end.
pub open spec fn ranked_backwards(s: Seq<Tally>) -> bool {
    forall|i: int, j: int| 0 <= i < j < s.len() ==> !outranks(#[trigger] s[i], #[trigger] s[j])
}

/// Whether no tally of `low` outranks a tally of `high`.
pub open spec fn none_above(low: Seq<Tally>, high: Seq<Tally>) -> bool {
    forall|i: int, j: int|
        0 <= i < low.len() && 0 <= j < high.len() ==> !outranks(
            #[trigger] low[i],
            #[trigger] high[j],
        )
}

/// Whether `x` outranks no tally of `s`.
pub open spec fn below_all(x: Tally, s: Seq<Tally>) -> bool {
    forall|j: int| 0 <= j < s.len() ==> !outranks(x, #[trigger] s[j])
}

/// The last tally of a ranked sequence outranks none of the others.
proof fn lemma_last_is_lowest(s: Seq<Tally>)
    requires
        ranked(s),
        s.len() > 0,
    ensures
        below_all(s.last(), s.drop_last()),
        ranked(s.drop_last()),
{
}

/// A tally that does not outrank the last of a ranked sequence outranks none
/// of the sequence.
proof fn lemma_below_last_is_below_all(x: Tally, s: Seq<Tally>)
    requires
        ranked(s),
        s.len() > 0,
        !outranks(x, s.last()),
    ensures
        below_all(x, s),
{
    assert forall|j: int| 0 <= j < s.len() implies !outranks(x, #[trigger] s[j]) by {
        if j < s.len() - 1 {
            lemma_not_outranked_chain(x, s.last(), s[j]);
        }
    }
}

/// Moving the lowest remaining tally onto the pile keeps the pile in order
/// and below what remains.
proof fn lemma_pile_grows(pile: Seq<Tally>, x: Tally, rest: Seq<Tally>, other: Seq<Tally>)
    requires
        ranked_backwards(pile),
        none_above(pile, rest.push(x)),
        none_above(pile, other),
        below_all(x, rest),
        below_all(x, other),
    ensures
        ranked_backwards(pile.push(x)),
        none_above(pile.push(x), rest),
        none_above(pile.push(x), other),
{
    let grown = pile.push(x);
    assert forall|i: int, j: int| 0 <= i < j < grown.len() implies !outranks(
        #[trigger] grown[i],
        #[trigger] grown[j],
    ) by {
        if j == pile.len() {
            assert(!outranks(pile[i], rest.push(x)[rest.len() as int]));
        }
    }
    assert forall|i: int, j: int| 0 <= i < grown.len() && 0 <= j < rest.len() implies !outranks(
        #[trigger] grown[i],
        #[trigger] rest[j],
    ) by {
        if i < pile.len() {
            assert(!outranks(pile[i], rest.push(x)[j]));
        }
    }
}

/// Moving the top of the pile to the end of what was merged keeps both in
/// order, and the pile below what was merged.
proof fn lemma_pile_shrinks(pile: Seq<Tally>, x: Tally, merged: Seq<Tally>)
    requires
        ranked_backwards(pile.push(x)),
        ranked(merged),
        none_above(pile.push(x), merged),
    ensures
        ranked_backwards(pile),
        ranked(merged.push(x)),
        none_above(pile, merged.push(x)),
{
    let full = pile.push(x);
    let longer = merged.push(x);
    assert forall|i: int, j: int| 0 <= i < j < pile.len() implies !outranks(
        #[trigger] pile[i],
        #[trigger] pile[j],
    ) by {
        assert(!outranks(full[i], full[j]));
    }
    assert forall|i: int, j: int| 0 <= i < j < longer.len() implies !outranks(
        #[trigger] longer[j],
        #[trigger] longer[i],
    ) by {
        if j == merged.len() {
            assert(!outranks(full[pile.len() as int], merged[i]));
        }
    }
    assert forall|i: int, j: int| 0 <= i < pile.len() && 0 <= j < longer.len() implies !outranks(
        #[trigger] pile[i],
        #[trigger] longer[j],
    ) by {
        if j < merged.len() {
            assert(!outranks(full[i], merged[j]));
        } else {
            assert(!outranks(full[i], full[pile.len() as int]));
        }
    }
}

/// Merges two ranked sequences of counted words into one.
///
/// The lowest entries are taken off the ends of `a` and `b` and piled up,
/// lowest first; the pile is then turned over.
pub fn merge(a: Vec<CountedWord>, b: Vec<CountedWord>) -> (merged: Vec<CountedWord>)
    requires
        ranked(a.deep_view()),
        ranked(b.deep_view()),
    ensures
        ranked(merged.deep_view()),
        merged.deep_view().to_multiset() == a.deep_view().to_multiset().add(
            b.deep_view().to_multiset(),
        ),
{
    broadcast use vstd::multiset::group_multiset_axioms;
    broadcast use vstd::seq_lib::group_to_multiset_ensures;

    let ghost whole = a.deep_view().to_multiset().add(b.deep_view().to_multiset());
    let mut a = a;
    let mut b = b;
    let mut pile: Vec<CountedWord> = Vec::new();
    proof {
        assert(pile.deep_view().to_multiset().add(a.deep_view().to_multiset()).add(
            b.deep_view().to_multiset(),
        ) =~= whole);
    }
    while a.len() > 0 || b.len() > 0
        invariant
            ranked(a.deep_view()),
            ranked(b.deep_view()),
            ranked_backwards(pile.deep_view()),
            none_above(pile.deep_view(), a.deep_view()),
            none_above(pile.deep_view(), b.deep_view()),
            pile.deep_view().to_multiset().add(a.deep_view().to_multiset()).add(
                b.deep_view().to_multiset(),
            ) == whole,
        decreases a.len() + b.len(),
    {
        let ghost a0 = a.deep_view();
        let ghost b0 = b.deep_view();
        let ghost p0 = pile.deep_view();
        let from_b = if a.len() == 0 {
            true
        } else if b.len() == 0 {
            false
        } else {
            a[a.len() - 1].ranks_above(&b[b.len() - 1])
        };
        if from_b {
            let lowest = b.pop().unwrap();
            pile.push(lowest);
            proof {
                let x = b0.last();
                assert(b.deep_view() =~= b0.drop_last());
                assert(b0 =~= b.deep_view().push(x));
                assert(pile.deep_view() =~= p0.push(x));
                lemma_last_is_lowest(b0);
                if a0.len() > 0 {
                    lemma_outranks_asymmetric(a0.last(), x);
                    lemma_below_last_is_below_all(x, a0);
                }
                lemma_pile_grows(p0, x, b.deep_view(), a0);
                to_multiset_build(b.deep_view(), x);
                to_multiset_build(p0, x);
                assert(pile.deep_view().to_multiset().add(a.deep_view().to_multiset()).add(
                    b.deep_view().to_multiset(),
                ) =~= whole);
            }
        } else {
            let lowest = a.pop().unwrap();
            pile.push(lowest);
            proof {
                let x = a0.last();
                assert(a.deep_view() =~= a0.drop_last());
                assert(a0 =~= a.deep_view().push(x));
                assert(pile.deep_view() =~= p0.push(x));
                lemma_last_is_lowest(a0);
                if b0.len() > 0 {
                    lemma_below_last_is_below_all(x, b0);
                }
                lemma_pile_grows(p0, x, a.deep_view(), b0);
                to_multiset_build(a.deep_view(), x);
                to_multiset_build(p0, x);
                assert(pile.deep_view().to_multiset().add(a.deep_view().to_multiset()).add(
                    b.deep_view().to_multiset(),
                ) =~= whole);
            }
        }
    }
    let mut merged: Vec<CountedWord> = Vec::new();
    while pile.len() > 0
        invariant
            ranked(merged.deep_view()),
            ranked_backwards(pile.deep_view()),
            none_above(pile.deep_view(), merged.deep_view()),
            merged.deep_view().to_multiset().add(pile.deep_view().to_multiset()) == whole,
        decreases pile.len(),
    {
        let ghost p0 = pile.deep_view();
        let ghost m0 = merged.deep_view();
        let highest = pile.pop().unwrap();
        merged.push(highest);
        proof {
            let x = p0.last();
            assert(p0 =~= pile.deep_view().push(x));
            assert(merged.deep_view() =~= m0.push(x));
            lemma_pile_shrinks(pile.deep_view(), x, m0);
            to_multiset_build(pile.deep_view(), x);
            to_multiset_build(m0, x);
        }
    }
    merged
}

/// Sorts counted words into the order of a ranking: the result holds the
/// same counted words, and none of them is outranked by a later one.
pub fn sort_by_rank(words: Vec<CountedWord>) -> (sorted: Vec<CountedWord>)
    ensures
        ranked(sorted.deep_view()),
        sorted.deep_view().to_multiset() == words.deep_view().to_multiset(),
    decreases words.len(),
{
    if words.len() < 2 {
        return words;
    }
    let ghost whole = words.deep_view();
    let mut front = words;
    let back = front.split_off(front.len() / 2);
    proof {
        assert(whole =~= front.deep_view() + back.deep_view());
        lemma_multiset_commutative(front.deep_view(), back.deep_view());
    }
    let front = sort_by_rank(front);
    let back = sort_by_rank(back);
    merge(front, back)
}

} // verus!
