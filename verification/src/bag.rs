//! The bag of words that a sequence of tallies stands for.

use crate::rank::{
    copies, distinct_words, is_ranking, lemma_copies, lemma_outranks_total, outranks, ranked,
};
use crate::word_index::Tally;
use vstd::multiset::Multiset;
use vstd::prelude::*;

verus! {

/// The bag of words that a sequence of tallies stands for: each word as
/// often as its tallies count it.
pub open spec fn bag_of(tallies: Seq<Tally>) -> Multiset<Seq<u8>>
    decreases tallies.len(),
{
    if tallies.len() == 0 {
        Multiset::empty()
    } else {
        bag_of(tallies.drop_last()).add(copies(tallies.last().word, tallies.last().count))
    }
}

/// A word for which there is no tally is not in the bag.
pub proof fn lemma_bag_without(tallies: Seq<Tally>, word: Seq<u8>)
    requires
        forall|i: int| 0 <= i < tallies.len() ==> (#[trigger] tallies[i]).word != word,
    ensures
        bag_of(tallies).count(word) == 0,
    decreases tallies.len(),
{
    broadcast use vstd::multiset::group_multiset_axioms;

    if tallies.len() > 0 {
        lemma_bag_without(tallies.drop_last(), word);
        lemma_copies(tallies.last().word, tallies.last().count);
    }
}

/// Where no two tallies are for the same word, the bag holds each tally's
/// word as often as that tally says.
pub proof fn lemma_bag_count(tallies: Seq<Tally>, i: int)
    requires
        distinct_words(tallies),
        0 <= i < tallies.len(),
    ensures
        bag_of(tallies).count(tallies[i].word) == tallies[i].count,
    decreases tallies.len(),
{
    broadcast use vstd::multiset::group_multiset_axioms;

    let front = tallies.drop_last();
    let last = tallies.last();
    lemma_copies(last.word, last.count);
    if i == tallies.len() - 1 {
        assert forall|k: int| 0 <= k < front.len() implies (#[trigger] front[k]).word
            != last.word by {
            assert(front[k] == tallies[k]);
        }
        lemma_bag_without(front, last.word);
    } else {
        assert(front[i] == tallies[i]);
        assert(distinct_words(front)) by {
            assert forall|a: int, b: int| 0 <= a < b < front.len() implies (
            #[trigger] front[a]).word != (#[trigger] front[b]).word by {
                assert(front[a] == tallies[a] && front[b] == tallies[b]);
            }
        }
        lemma_bag_count(front, i);
    }
}

/// A new tally at the end adds its word to the bag, as often as it says.
pub proof fn lemma_bag_push(tallies: Seq<Tally>, tally: Tally)
    ensures
        bag_of(tallies.push(tally)) == bag_of(tallies).add(copies(tally.word, tally.count)),
{
    assert(tallies.push(tally).drop_last() =~= tallies);
}

/// One more occurrence in a tally puts its word into the bag once more.
pub proof fn lemma_bag_bump(tallies: Seq<Tally>, i: int)
    requires
        0 <= i < tallies.len(),
    ensures
        bag_of(tallies.update(i, Tally { word: tallies[i].word, count: tallies[i].count + 1 }))
            == bag_of(tallies).insert(tallies[i].word),
    decreases tallies.len(),
{
    broadcast use vstd::multiset::group_multiset_axioms;

    let bumped = tallies.update(i, Tally { word: tallies[i].word, count: tallies[i].count + 1 });
    if i == tallies.len() - 1 {
        assert(bumped.drop_last() =~= tallies.drop_last());
    } else {
        assert(bumped.drop_last() =~= tallies.drop_last().update(
            i,
            Tally { word: tallies[i].word, count: tallies[i].count + 1 },
        ));
        lemma_bag_bump(tallies.drop_last(), i);
    }
    assert(bag_of(bumped) =~= bag_of(tallies).insert(tallies[i].word));
}

/// Tallies for distinct words, each with a count of one or more, put into
/// the order of a ranking, are the ranking of the bag that they stand for.
pub proof fn lemma_sorted_tallies_rank_their_bag(tallies: Seq<Tally>, sorted: Seq<Tally>)
    requires
        distinct_words(tallies),
        forall|i: int| 0 <= i < tallies.len() ==> (#[trigger] tallies[i]).count >= 1,
        ranked(sorted),
        sorted.to_multiset() == tallies.to_multiset(),
    ensures
        is_ranking(sorted, bag_of(tallies)),
{
    broadcast use vstd::seq_lib::group_to_multiset_ensures;

    let bag = bag_of(tallies);
    assert forall|i: int| 0 <= i < sorted.len() implies (#[trigger] sorted[i]).count >= 1
        && sorted[i].count == bag.count(sorted[i].word) by {
        assert(sorted.contains(sorted[i]));
        assert(tallies.to_multiset().count(sorted[i]) > 0);
        assert(tallies.contains(sorted[i]));
        let k = choose|k: int| 0 <= k < tallies.len() && tallies[k] == sorted[i];
        lemma_bag_count(tallies, k);
    }
    assert forall|word: Seq<u8>| #[trigger] bag.count(word) > 0 implies exists|i: int|
        0 <= i < sorted.len() && (#[trigger] sorted[i]).word == word by {
        if forall|k: int| 0 <= k < tallies.len() ==> (#[trigger] tallies[k]).word != word {
            lemma_bag_without(tallies, word);
        }
        let k = choose|k: int| 0 <= k < tallies.len() && (#[trigger] tallies[k]).word == word;
        assert(tallies.contains(tallies[k]));
        assert(sorted.to_multiset().count(tallies[k]) > 0);
        assert(sorted.contains(tallies[k]));
        let i = choose|i: int| 0 <= i < sorted.len() && sorted[i] == tallies[k];
        assert(sorted[i].word == word);
    }
    assert(tallies.no_duplicates());
    tallies.lemma_multiset_has_no_duplicates();
    sorted.lemma_multiset_has_no_duplicates_conv();
    assert forall|i: int, j: int| 0 <= i < j < sorted.len() implies outranks(
        #[trigger] sorted[i],
        #[trigger] sorted[j],
    ) by {
        lemma_outranks_total(sorted[i], sorted[j]);
    }
}

/// Whether the bag of `entries` holds the word of every tally of `words` as
/// often as that tally says.
pub open spec fn counts_agree(words: Seq<Tally>, entries: Seq<Tally>) -> bool {
    forall|i: int|
        0 <= i < words.len() ==> bag_of(entries).count((#[trigger] words[i]).word)
            == words[i].count
}

/// Two stores whose entries agree with each other's bags stand for the same
/// bag.
pub proof fn lemma_agreeing_bags_are_equal(a: Seq<Tally>, b: Seq<Tally>)
    requires
        distinct_words(a),
        distinct_words(b),
        forall|i: int| 0 <= i < a.len() ==> (#[trigger] a[i]).count >= 1,
        forall|i: int| 0 <= i < b.len() ==> (#[trigger] b[i]).count >= 1,
        counts_agree(a, b),
        counts_agree(b, a),
    ensures
        bag_of(a) == bag_of(b),
{
    assert forall|word: Seq<u8>| bag_of(a).count(word) == bag_of(b).count(word) by {
        if exists|i: int| 0 <= i < a.len() && (#[trigger] a[i]).word == word {
            let i = choose|i: int| 0 <= i < a.len() && (#[trigger] a[i]).word == word;
            lemma_bag_count(a, i);
        } else if exists|k: int| 0 <= k < b.len() && (#[trigger] b[k]).word == word {
            let k = choose|k: int| 0 <= k < b.len() && (#[trigger] b[k]).word == word;
            lemma_bag_without(a, word);
            lemma_bag_count(b, k);
        } else {
            lemma_bag_without(a, word);
            lemma_bag_without(b, word);
        }
    }
    assert(bag_of(a) =~= bag_of(b));
}

/// Two stores one of whose entries disagrees with the other's bag stand for
/// different bags.
pub proof fn lemma_disagreeing_bags_differ(a: Seq<Tally>, b: Seq<Tally>)
    requires
        distinct_words(a),
        !counts_agree(a, b),
    ensures
        bag_of(a) != bag_of(b),
{
    let i = choose|i: int|
        0 <= i < a.len() && bag_of(b).count((#[trigger] a[i]).word) != a[i].count;
    lemma_bag_count(a, i);
}

} // verus!
