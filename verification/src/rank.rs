//! The order of a ranking: a word that occurs more often stands first, and
//! of two words that occur equally often the one that is smaller byte by
//! byte stands first.

use crate::word_index::{CountedWord, Tally};
use vstd::multiset::Multiset;
use vstd::prelude::*;

verus! {

/// The lexicographic order on byte strings: `a` is a proper prefix of `b`, or
/// at the first place where the two differ `a` holds the smaller byte.
pub open spec fn lex_less(a: Seq<u8>, b: Seq<u8>) -> bool
    decreases a.len(),
{
    if b.len() == 0 {
        false
    } else if a.len() == 0 {
        true
    } else if a[0] != b[0] {
        a[0] < b[0]
    } else {
        lex_less(a.drop_first(), b.drop_first())
    }
}

/// Whether `a` stands before `b` in a ranking: `a` has the higher count, or
/// the counts are equal and the word of `a` is the smaller one.
pub open spec fn outranks(a: Tally, b: Tally) -> bool {
    a.count > b.count || (a.count == b.count && lex_less(a.word, b.word))
}

/// Whether no tally of `s` is outranked by a later one.
pub open spec fn ranked(s: Seq<Tally>) -> bool {
    forall|i: int, j: int| 0 <= i < j < s.len() ==> !outranks(#[trigger] s[j], #[trigger] s[i])
}

/// Whether `ranking` is the ranking of the words in `bag`: it holds each
/// word of the bag once, together with the number of its occurrences in the
/// bag, and every entry outranks the entries after it.
pub open spec fn is_ranking(ranking: Seq<Tally>, bag: Multiset<Seq<u8>>) -> bool {
    &&& forall|i: int|
        0 <= i < ranking.len() ==> (#[trigger] ranking[i]).count >= 1 && ranking[i].count
            == bag.count(ranking[i].word)
    &&& forall|word: Seq<u8>| #[trigger]
        bag.count(word) > 0 ==> exists|i: int|
            0 <= i < ranking.len() && (#[trigger] ranking[i]).word == word
    &&& forall|i: int, j: int|
        0 <= i < j < ranking.len() ==> outranks(#[trigger] ranking[i], #[trigger] ranking[j])
}

/// Whether no two tallies are for the same word.
pub open spec fn distinct_words(tallies: Seq<Tally>) -> bool {
    forall|i: int, j: int|
        0 <= i < j < tallies.len() ==> (#[trigger] tallies[i]).word != (#[trigger] tallies[j]).word
}

/// The bag that holds `word` exactly `n` times and nothing else.
pub open spec fn copies(word: Seq<u8>, n: nat) -> Multiset<Seq<u8>>
    decreases n,
{
    if n == 0 {
        Multiset::empty()
    } else {
        copies(word, (n - 1) as nat).insert(word)
    }
}

/// The sum of the counts of a sequence of tallies.
pub open spec fn total_count(s: Seq<Tally>) -> nat
    decreases s.len(),
{
    if s.len() == 0 {
        0
    } else {
        total_count(s.drop_last()) + s.last().count
    }
}

/// `copies(word, n)` holds `word` `n` times, holds no other word, and has
/// `n` elements.
pub proof fn lemma_copies(word: Seq<u8>, n: nat)
    ensures
        copies(word, n).count(word) == n,
        forall|other: Seq<u8>| other != word ==> copies(word, n).count(other) == 0,
        copies(word, n).len() == n,
    decreases n,
{
    broadcast use vstd::multiset::group_multiset_axioms;

    if n > 0 {
        lemma_copies(word, (n - 1) as nat);
    }
}

/// No byte string is smaller than itself.
pub proof fn lemma_lex_irreflexive(a: Seq<u8>)
    ensures
        !lex_less(a, a),
    decreases a.len(),
{
    if a.len() > 0 {
        lemma_lex_irreflexive(a.drop_first());
    }
}

/// The lexicographic order is transitive.
pub proof fn lemma_lex_transitive(a: Seq<u8>, b: Seq<u8>, c: Seq<u8>)
    requires
        lex_less(a, b),
        lex_less(b, c),
    ensures
        lex_less(a, c),
    decreases a.len(),
{
    if a.len() > 0 && a[0] == b[0] && b[0] == c[0] {
        lemma_lex_transitive(a.drop_first(), b.drop_first(), c.drop_first());
    }
}

/// Of two different byte strings one is smaller than the other.
pub proof fn lemma_lex_total(a: Seq<u8>, b: Seq<u8>)
    requires
        a != b,
    ensures
        lex_less(a, b) || lex_less(b, a),
    decreases a.len(),
{
    if a.len() == 0 || b.len() == 0 {
        assert(a.len() != b.len()) by {
            if a.len() == b.len() {
                assert(a =~= b);
            }
        }
    } else if a[0] == b[0] {
        assert(a.drop_first() != b.drop_first()) by {
            if a.drop_first() == b.drop_first() {
                assert(a =~= seq![a[0]] + a.drop_first());
                assert(b =~= seq![b[0]] + b.drop_first());
            }
        }
        lemma_lex_total(a.drop_first(), b.drop_first());
    }
}

/// No tally outranks itself.
pub proof fn lemma_outranks_irreflexive(a: Tally)
    ensures
        !outranks(a, a),
{
    lemma_lex_irreflexive(a.word);
}

/// Outranking is transitive.
pub proof fn lemma_outranks_transitive(a: Tally, b: Tally, c: Tally)
    requires
        outranks(a, b),
        outranks(b, c),
    ensures
        outranks(a, c),
{
    if a.count == b.count && b.count == c.count {
        lemma_lex_transitive(a.word, b.word, c.word);
    }
}

/// Of two different tallies one outranks the other.
pub proof fn lemma_outranks_total(a: Tally, b: Tally)
    requires
        a != b,
    ensures
        outranks(a, b) || outranks(b, a),
{
    if a.count == b.count {
        lemma_lex_total(a.word, b.word);
    }
}

/// Two tallies cannot outrank each other.
pub proof fn lemma_outranks_asymmetric(a: Tally, b: Tally)
    requires
        outranks(a, b),
    ensures
        !outranks(b, a),
{
    if outranks(b, a) {
        lemma_outranks_transitive(a, b, a);
        lemma_outranks_irreflexive(a);
    }
}

/// If `a` does not outrank `b` and `b` does not outrank `c`, then `a` does
/// not outrank `c`.
pub proof fn lemma_not_outranked_chain(a: Tally, b: Tally, c: Tally)
    requires
        !outranks(a, b),
        !outranks(b, c),
    ensures
        !outranks(a, c),
{
    if outranks(a, c) {
        if a == b {
        } else {
            lemma_outranks_total(a, b);
            lemma_outranks_transitive(b, a, c);
        }
    }
}

/// A ranking holds no word twice.
pub proof fn lemma_ranking_words_distinct(ranking: Seq<Tally>, bag: Multiset<Seq<u8>>)
    requires
        is_ranking(ranking, bag),
    ensures
        distinct_words(ranking),
{
    assert forall|i: int, j: int| 0 <= i < j < ranking.len() implies (#[trigger] ranking[i]).word
        != (#[trigger] ranking[j]).word by {
        assert(outranks(ranking[i], ranking[j]));
        lemma_lex_irreflexive(ranking[i].word);
    }
}

/// In a ranking the counts never go up: no entry has a lower count than an
/// entry after it.
pub proof fn lemma_ranking_counts_descend(ranking: Seq<Tally>, bag: Multiset<Seq<u8>>)
    requires
        is_ranking(ranking, bag),
    ensures
        forall|i: int, j: int|
            0 <= i < j < ranking.len() ==> (#[trigger] ranking[i]).count >= (
            #[trigger] ranking[j]).count,
{
    assert forall|i: int, j: int| 0 <= i < j < ranking.len() implies (#[trigger] ranking[i]).count
        >= (#[trigger] ranking[j]).count by {
        assert(outranks(ranking[i], ranking[j]));
    }
}

/// A ranking without its last entry is the ranking of the bag without the
/// occurrences of that entry's word.
pub proof fn lemma_ranking_without_last(ranking: Seq<Tally>, bag: Multiset<Seq<u8>>)
    requires
        is_ranking(ranking, bag),
        ranking.len() > 0,
    ensures
        is_ranking(
            ranking.drop_last(),
            bag.sub(copies(ranking.last().word, ranking.last().count)),
        ),
        bag.sub(copies(ranking.last().word, ranking.last().count)).len() + ranking.last().count
            == bag.len(),
{
    broadcast use vstd::multiset::group_multiset_axioms;

    let last = ranking.last();
    let front = ranking.drop_last();
    let taken = copies(last.word, last.count);
    let left = bag.sub(taken);
    lemma_copies(last.word, last.count);
    lemma_ranking_words_distinct(ranking, bag);
    assert(taken.subset_of(bag));
    assert forall|i: int| 0 <= i < front.len() implies (#[trigger] front[i]).count >= 1
        && front[i].count == left.count(front[i].word) by {
        assert(front[i] == ranking[i]);
        assert(ranking[i].word != ranking[ranking.len() - 1].word);
    }
    assert forall|word: Seq<u8>| #[trigger] left.count(word) > 0 implies exists|i: int|
        0 <= i < front.len() && (#[trigger] front[i]).word == word by {
        assert(bag.count(word) > 0);
        let i = choose|i: int| 0 <= i < ranking.len() && (#[trigger] ranking[i]).word == word;
        assert(i < front.len());
        assert(front[i].word == word);
    }
    assert forall|i: int, j: int| 0 <= i < j < front.len() implies outranks(
        #[trigger] front[i],
        #[trigger] front[j],
    ) by {
        assert(outranks(ranking[i], ranking[j]));
    }
}

/// The counts of a ranking add up to the number of words in the bag.
pub proof fn lemma_ranking_total(ranking: Seq<Tally>, bag: Multiset<Seq<u8>>)
    requires
        is_ranking(ranking, bag),
    ensures
        total_count(ranking) == bag.len(),
    decreases ranking.len(),
{
    broadcast use vstd::multiset::group_multiset_axioms;

    if ranking.len() == 0 {
        assert(bag.len() == 0) by {
            if bag.len() > 0 {
                assert(bag.count(bag.choose()) > 0);
            }
        }
    } else {
        lemma_ranking_without_last(ranking, bag);
        lemma_ranking_total(
            ranking.drop_last(),
            bag.sub(copies(ranking.last().word, ranking.last().count)),
        );
    }
}

/// The ranking of a bag is empty if and only if the bag is.
pub proof fn lemma_ranking_empty(ranking: Seq<Tally>, bag: Multiset<Seq<u8>>)
    requires
        is_ranking(ranking, bag),
    ensures
        ranking.len() == 0 <==> bag.len() == 0,
{
    lemma_ranking_total(ranking, bag);
    if ranking.len() > 0 {
        vstd::multiset::axiom_count_le_len(bag, ranking[0].word);
    }
}

/// A bag has one ranking only: two rankings of the same bag are equal.
pub proof fn lemma_ranking_unique(first: Seq<Tally>, second: Seq<Tally>, bag: Multiset<Seq<u8>>)
    requires
        is_ranking(first, bag),
        is_ranking(second, bag),
    ensures
        first == second,
    decreases first.len(),
{
    if first.len() == 0 || second.len() == 0 {
        if first.len() > 0 {
            assert(bag.count(first[0].word) > 0);
        }
        if second.len() > 0 {
            assert(bag.count(second[0].word) > 0);
        }
        assert(first =~= second);
    } else {
        let a = first.last();
        let b = second.last();
        assert(a == b) by {
            assert(bag.count(b.word) > 0);
            let i = choose|i: int| 0 <= i < first.len() && (#[trigger] first[i]).word == b.word;
            assert(first[i] == b);
            assert(bag.count(a.word) > 0);
            let j = choose|j: int| 0 <= j < second.len() && (#[trigger] second[j]).word == a.word;
            assert(second[j] == a);
            if i < first.len() - 1 && j < second.len() - 1 {
                assert(outranks(first[i], first[first.len() - 1]));
                assert(outranks(second[j], second[second.len() - 1]));
                lemma_outranks_asymmetric(a, b);
            }
        }
        lemma_ranking_without_last(first, bag);
        lemma_ranking_without_last(second, bag);
        lemma_ranking_unique(
            first.drop_last(),
            second.drop_last(),
            bag.sub(copies(a.word, a.count)),
        );
        assert(first =~= first.drop_last().push(a));
        assert(second =~= second.drop_last().push(b));
    }
}

/// Tests whether `a` is smaller than `b` in the lexicographic order.
pub fn bytes_less(a: &[u8], b: &[u8]) -> (less: bool)
    ensures
        less == lex_less(a@, b@),
{
    let mut i: usize = 0;
    proof {
        assert(a@.skip(0) =~= a@);
        assert(b@.skip(0) =~= b@);
    }
    while i < a.len() && i < b.len()
        invariant
            i <= a.len(),
            i <= b.len(),
            lex_less(a@, b@) == lex_less(a@.skip(i as int), b@.skip(i as int)),
        decreases a.len() - i,
    {
        if a[i] != b[i] {
            return a[i] < b[i];
        }
        proof {
            assert(a@.skip(i as int).drop_first() =~= a@.skip(i + 1));
            assert(b@.skip(i as int).drop_first() =~= b@.skip(i + 1));
        }
        i += 1;
    }
    i < b.len()
}

impl CountedWord {
    /// Tests whether this counted word stands before `other` in a ranking.
    pub fn ranks_above(&self, other: &CountedWord) -> (above: bool)
        ensures
            above == outranks(self@, other@),
    {
        self.count > other.count || (self.count == other.count && bytes_less(
            &self.word,
            &other.word,
        ))
    }
}

} // verus!
