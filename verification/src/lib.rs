//! Counting the words of a text.
//!
//! A text is a sequence of bytes. Its words are the maximal runs of ASCII
//! letters and digits, folded to lower case; every other byte, those outside
//! ASCII too, separates words. [`count_words`] counts how often each word
//! occurs and ranks the words by descending count. Words that occur equally
//! often are ranked in lexicographic order of their bytes, so a text has
//! exactly one ranking.
//!
//! - [`token`] says which tokens a text holds.
//! - [`word_index`] has the store that counts words one at a time.
//! - [`rank`] says what the ranking of a bag of words is.

use crate::rank::{
    distinct_words, is_ranking, lemma_ranking_counts_descend, lemma_ranking_empty,
    lemma_ranking_total, lemma_ranking_words_distinct, total_count,
};
use crate::token::{
    flush, is_alphanumeric, is_normalized, lemma_no_tokens, lemma_one_token_for_each_run,
    lemma_scan_emits_tokens, lemma_tokens_normalized, no_word_bytes, run_starts, scan,
    to_lowercase, tokens,
};
use crate::word_index::{CountedWord, WordStore};
use vstd::multiset::axiom_count_le_len;
use vstd::prelude::*;
use vstd::seq_lib::{to_multiset_build, to_multiset_contains, to_multiset_len};

mod bag;
mod hash;
pub mod rank;
mod sort;
mod table;
pub mod token;
pub mod word_index;

verus! {

/// Counts the appearances of each word in a text.
///
/// The result is the ranking of the tokens of `input`: one entry for each
/// distinct token, with the number of times that the token occurs in the
/// text, the most frequent first. Tokens that occur equally often stand in
/// lexicographic order.
///
/// So the counts add up to the number of runs of word bytes in the text, no
/// word stands twice in the result, the counts never go up from one entry to
/// the next, and every word of the result is a normalized word. A text
/// without word bytes, and no other, has the empty ranking.
pub fn count_words(input: &[u8]) -> (ranking: Vec<CountedWord>)
    ensures
        is_ranking(ranking.deep_view(), tokens(input@).to_multiset()),
        total_count(ranking.deep_view()) == tokens(input@).len(),
        total_count(ranking.deep_view()) == run_starts(input@).len(),
        ranking.len() == 0 <==> no_word_bytes(input@),
        distinct_words(ranking.deep_view()),
        forall|i: int, j: int|
            0 <= i < j < ranking.len() ==> (#[trigger] ranking[i]).count >= (
            #[trigger] ranking[j]).count,
        forall|i: int| 0 <= i < ranking.len() ==> is_normalized((#[trigger] ranking[i]).word@),
{
    let mut word_store = WordStore::new();
    let mut current_word: Vec<u8> = Vec::new();
    let ghost mut emitted: Seq<Seq<u8>> = Seq::empty();
    proof {
        assert(input@.skip(0) =~= input@);
        assert(emitted.to_multiset() =~= word_store@) by {
            to_multiset_len(emitted);
            vstd::multiset::lemma_multiset_empty_len(emitted.to_multiset());
        }
    }
    let mut i: usize = 0;
    while i < input.len()
        invariant
            i <= input.len(),
            word_store@ == emitted.to_multiset(),
            emitted + scan(input@.skip(i as int), current_word@) == scan(input@, Seq::empty()),
            emitted.len() + current_word.len() <= i,
        decreases input.len() - i,
    {
        let character = input[i];
        let ghost rest = input@.skip(i + 1);
        let ghost pending = current_word@;
        proof {
            assert(input@.skip(i as int)[0] == character);
            assert(input@.skip(i as int).drop_first() =~= rest);
        }
        if is_alphanumeric(character) {
            current_word.push(to_lowercase(character));
        } else if current_word.len() > 0 {
            proof {
                to_multiset_len(emitted);
                to_multiset_build(emitted, pending);
                axiom_count_le_len(word_store@, pending);
            }
            word_store.add_word(current_word.as_slice());
            current_word.clear();
            proof {
                assert(scan(input@.skip(i as int), pending) == seq![pending] + scan(
                    rest,
                    current_word@,
                ));
                assert(emitted.push(pending) + scan(rest, current_word@) =~= emitted + (seq![
                    pending,
                ] + scan(rest, current_word@)));
                emitted = emitted.push(pending);
            }
        } else {
            proof {
                assert(pending =~= Seq::<u8>::empty());
                assert(flush(pending) + scan(rest, pending) =~= scan(rest, pending));
            }
        }
        i += 1;
    }
    proof {
        assert(input@.skip(i as int) =~= Seq::<u8>::empty());
        assert(emitted + flush(current_word@) == scan(input@, Seq::empty()));
    }
    if current_word.len() > 0 {
        proof {
            to_multiset_len(emitted);
            to_multiset_build(emitted, current_word@);
            axiom_count_le_len(word_store@, current_word@);
        }
        word_store.add_word(current_word.as_slice());
        proof {
            emitted = emitted.push(current_word@);
        }
    }
    proof {
        assert(emitted =~= scan(input@, Seq::empty()));
        lemma_scan_emits_tokens(input@);
    }
    let ranking = word_store.sort_words();
    proof {
        let tallies = ranking.deep_view();
        let bag = tokens(input@).to_multiset();
        lemma_ranking_total(tallies, bag);
        to_multiset_len(tokens(input@));
        lemma_one_token_for_each_run(input@);
        lemma_ranking_empty(tallies, bag);
        lemma_no_tokens(input@);
        lemma_ranking_words_distinct(tallies, bag);
        lemma_ranking_counts_descend(tallies, bag);
        lemma_tokens_normalized(input@);
        assert forall|i: int, j: int| 0 <= i < j < ranking.len() implies (
        #[trigger] ranking[i]).count >= (#[trigger] ranking[j]).count by {
            assert(tallies[i].count >= tallies[j].count);
        }
        assert forall|i: int| 0 <= i < ranking.len() implies is_normalized(
            (#[trigger] ranking[i]).word@,
        ) by {
            to_multiset_contains(tokens(input@), tallies[i].word);
            assert(tokens(input@).contains(tallies[i].word));
        }
    }
    ranking
}

} // verus!
