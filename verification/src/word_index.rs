//! The frequency store: it takes words one at a time, keeps one counter for
//! each distinct word, and hands out the counted words ranked by how often
//! they occurred.

use crate::bag::{
    bag_of, counts_agree, lemma_agreeing_bags_are_equal, lemma_bag_bump, lemma_bag_count,
    lemma_bag_push, lemma_bag_without, lemma_disagreeing_bags_differ,
    lemma_sorted_tallies_rank_their_bag,
};
use crate::hash::slot_index;
use crate::rank::{
    copies, distinct_words, is_ranking, lemma_ranking_total, lemma_ranking_words_distinct,
    total_count,
};
use crate::sort::sort_by_rank;
use crate::table::{
    empty_slots, find, grow, lemma_listing_extended, lemma_listing_ignores_counts, lists_all,
    same_bytes,
};
use vstd::multiset::Multiset;
use vstd::prelude::*;
use vstd::slice::slice_to_vec;
use vstd::std_specs::cmp::PartialEqSpecImpl;

verus! {

/// What a counted word stands for: a word and the number of its occurrences.
pub struct Tally {
    pub word: Seq<u8>,
    pub count: nat,
}

/// A counted word: a word and the number of times it appeared.
#[derive(Debug)]
pub struct CountedWord {
    /// The word that was counted.
    pub word: Box<[u8]>,
    /// The number of times this word appeared.
    pub count: usize,
}

impl View for CountedWord {
    type V = Tally;

    open spec fn view(&self) -> Tally {
        Tally { word: self.word@, count: self.count as nat }
    }
}

impl DeepView for CountedWord {
    type V = Tally;

    open spec fn deep_view(&self) -> Tally {
        self@
    }
}

impl PartialEq for CountedWord {
    /// Two counted words are equal if they hold the same word and the same
    /// count.
    fn eq(&self, other: &CountedWord) -> (equal: bool) {
        self.count == other.count && same_bytes(&self.word, &other.word)
    }
}

impl PartialEqSpecImpl for CountedWord {
    open spec fn obeys_eq_spec() -> bool {
        true
    }

    open spec fn eq_spec(&self, other: &CountedWord) -> bool {
        self@ == other@
    }
}

/// Owns the bytes of a word as a boxed slice.
///
/// Calls `Vec::into_boxed_slice`, which keeps the elements and their order
/// and drops the spare capacity. That the bytes stay the same is taken on
/// trust.
#[verifier::external_body]
fn into_boxed(word: Vec<u8>) -> (boxed: Box<[u8]>)
    ensures
        boxed@ == word@,
{
    word.into_boxed_slice()
}

/// Whether entries and a hash table make up a store: every entry counts at
/// least one occurrence, no two entries hold the same word, and the hash
/// table leads to every entry.
spec fn well_formed(entries: Seq<Tally>, slots: Seq<Vec<usize>>) -> bool {
    &&& forall|i: int| 0 <= i < entries.len() ==> (#[trigger] entries[i]).count >= 1
    &&& distinct_words(entries)
    &&& lists_all(slots, entries)
}

/// Tests whether the store made of `entries` and `slots` holds every word of
/// `words` as often as `words` counts it.
fn holds_all(
    words: &Vec<CountedWord>,
    entries: &Vec<CountedWord>,
    slots: &Vec<Vec<usize>>,
) -> (all: bool)
    requires
        forall|i: int| 0 <= i < words.len() ==> (#[trigger] words.deep_view()[i]).count >= 1,
        well_formed(entries.deep_view(), slots@),
    ensures
        all == counts_agree(words.deep_view(), entries.deep_view()),
{
    let ghost tallies = entries.deep_view();
    let mut i: usize = 0;
    while i < words.len()
        invariant
            i <= words.len(),
            tallies == entries.deep_view(),
            well_formed(tallies, slots@),
            forall|k: int| 0 <= k < words.len() ==> (#[trigger] words.deep_view()[k]).count >= 1,
            forall|k: int|
                0 <= k < i ==> bag_of(tallies).count((#[trigger] words.deep_view()[k]).word)
                    == words.deep_view()[k].count,
        decreases words.len() - i,
    {
        let ghost wanted = words.deep_view()[i as int];
        if slots.len() == 0 {
            proof {
                lemma_bag_without(tallies, wanted.word);
            }
            return false;
        }
        let slot = slot_index(&words[i].word, slots.len());
        match find(entries, slots, slot, &words[i].word) {
            Some(j) => {
                proof {
                    assert(tallies[j as int].word == wanted.word);
                    lemma_bag_count(tallies, j as int);
                }
                if entries[j].count != words[i].count {
                    return false;
                }
            },
            None => {
                proof {
                    assert forall|k: int| 0 <= k < tallies.len() implies (
                    #[trigger] tallies[k]).word != wanted.word by {
                        assert(entries[k].word@ != words[i as int].word@);
                    }
                    lemma_bag_without(tallies, wanted.word);
                }
                return false;
            },
        }
        i += 1;
    }
    true
}

/// The number of slots with which a store starts.
const INITIAL_SLOTS: usize = 16;

/// The frequency store: the words added so far, each with its count.
///
/// Its view is the bag of the words that were added: `store@.count(w)` is
/// the number of times that `w` was added.
#[derive(Debug)]
pub struct WordStore {
    /// One entry for each distinct word, in the order of first occurrence.
    entries: Vec<CountedWord>,
    /// A hash table over the entries: the slot into which a word falls holds
    /// the position of the word's entry.
    slots: Vec<Vec<usize>>,
}

impl View for WordStore {
    type V = Multiset<Seq<u8>>;

    closed spec fn view(&self) -> Multiset<Seq<u8>> {
        bag_of(self.entries.deep_view())
    }
}

impl WordStore {
    /// The invariant of the store.
    #[verifier::type_invariant]
    spec fn wf(&self) -> bool {
        well_formed(self.entries.deep_view(), self.slots@)
    }

    /// An empty store.
    pub fn new() -> (store: WordStore)
        ensures
            store@ == Multiset::<Seq<u8>>::empty(),
    {
        WordStore { entries: Vec::new(), slots: Vec::new() }
    }

    /// Adds one occurrence of `word`: the count of a word that the store
    /// holds goes up by one, and a word that it does not hold yet enters with
    /// the count one. The store keeps a copy of the word.
    ///
    /// A count cannot go beyond `usize::MAX`.
    pub fn add_word(&mut self, word: &[u8])
        requires
            old(self)@.count(word@) < usize::MAX,
        ensures
            final(self)@ == old(self)@.insert(word@),
    {
        proof {
            use_type_invariant(&*self);
        }
        let mut taken = WordStore::new();
        core::mem::swap(self, &mut taken);
        let WordStore { entries, slots } = taken;
        let mut entries = entries;
        let mut slots = if slots.len() == 0 {
            empty_slots(INITIAL_SLOTS)
        } else {
            slots
        };
        let ghost tallies = entries.deep_view();
        let slot = slot_index(word, slots.len());
        match find(&entries, &slots, slot, word) {
            Some(i) => {
                proof {
                    lemma_bag_count(tallies, i as int);
                    lemma_bag_bump(tallies, i as int);
                }
                entries[i].count += 1;
                proof {
                    assert(entries.deep_view() =~= tallies.update(
                        i as int,
                        Tally { word: tallies[i as int].word, count: tallies[i as int].count + 1 },
                    ));
                    lemma_listing_ignores_counts(slots@, tallies, entries.deep_view());
                }
            },
            None => {
                let position = entries.len();
                let entry = CountedWord { word: into_boxed(slice_to_vec(word)), count: 1 };
                let ghost tally = entry@;
                let ghost before = slots@;
                entries.push(entry);
                slots[slot].push(position);
                proof {
                    assert(entries.deep_view() =~= tallies.push(tally));
                    lemma_bag_push(tallies, tally);
                    assert(copies(word@, 1) =~= copies(word@, 0).insert(word@));
                    assert(bag_of(tallies.push(tally)) =~= bag_of(tallies).insert(word@));
                    lemma_listing_extended(before, slots@, tallies, tally);
                }
                if entries.len() > slots.len() {
                    slots = grow(&entries, slots);
                }
            },
        }
        *self = WordStore { entries, slots };
    }

    /// Ends the counting: hands out the counted words as a ranking, one
    /// entry for each distinct word that was added, the most frequent first.
    /// Words of equal count stand in lexicographic order.
    ///
    /// So no word stands twice in the ranking, and its counts add up to the
    /// number of words that were added.
    pub fn sort_words(self) -> (ranking: Vec<CountedWord>)
        ensures
            is_ranking(ranking.deep_view(), self@),
            distinct_words(ranking.deep_view()),
            total_count(ranking.deep_view()) == self@.len(),
    {
        proof {
            use_type_invariant(&self);
        }
        let ghost tallies = self.entries.deep_view();
        let ranking = sort_by_rank(self.entries);
        proof {
            lemma_sorted_tallies_rank_their_bag(tallies, ranking.deep_view());
            lemma_ranking_words_distinct(ranking.deep_view(), bag_of(tallies));
            lemma_ranking_total(ranking.deep_view(), bag_of(tallies));
        }
        ranking
    }
}

impl PartialEq for WordStore {
    /// Two stores are equal if they hold the same words, each as often as
    /// the other does.
    fn eq(&self, other: &WordStore) -> (equal: bool) {
        proof {
            use_type_invariant(self);
            use_type_invariant(other);
        }
        let equal = holds_all(&self.entries, &other.entries, &other.slots) && holds_all(
            &other.entries,
            &self.entries,
            &self.slots,
        );
        proof {
            let a = self.entries.deep_view();
            let b = other.entries.deep_view();
            if equal {
                lemma_agreeing_bags_are_equal(a, b);
            } else if !counts_agree(a, b) {
                lemma_disagreeing_bags_differ(a, b);
            } else {
                lemma_disagreeing_bags_differ(b, a);
            }
        }
        equal
    }
}

impl PartialEqSpecImpl for WordStore {
    open spec fn obeys_eq_spec() -> bool {
        true
    }

    open spec fn eq_spec(&self, other: &WordStore) -> bool {
        self@ == other@
    }
}

impl Default for WordStore {
    /// An empty store.
    fn default() -> (store: WordStore)
        ensures
            store@ == Multiset::<Seq<u8>>::empty(),
    {
        WordStore::new()
    }
}

} // verus!
