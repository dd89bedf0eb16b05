//! The hash table by which the store finds the entry of a word: for each
//! slot, the positions of the entries whose words fall into it.

use crate::hash::{slot_index, slot_of};
use crate::word_index::{CountedWord, Tally};
use vstd::prelude::*;

verus! {

/// Tests whether two byte strings are equal.
pub fn same_bytes(a: &[u8], b: &[u8]) -> (same: bool)
    ensures
        same == (a@ == b@),
{
    if a.len() != b.len() {
        return false;
    }
    let mut i: usize = 0;
    while i < a.len()
        invariant
            a.len() == b.len(),
            i <= a.len(),
            forall|k: int| 0 <= k < i ==> a@[k] == b@[k],
        decreases a.len() - i,
    {
        if a[i] != b[i] {
            return false;
        }
        i += 1;
    }
    assert(a@ =~= b@);
    true
}

/// A hash table of `n` slots that lists nothing.
pub fn empty_slots(n: usize) -> (slots: Vec<Vec<usize>>)
    ensures
        slots.len() == n,
        forall|s: int| 0 <= s < n ==> (#[trigger] slots[s]).len() == 0,
{
    let mut slots: Vec<Vec<usize>> = Vec::new();
    while slots.len() < n
        invariant
            slots.len() <= n,
            forall|s: int| 0 <= s < slots.len() ==> (#[trigger] slots[s]).len() == 0,
        decreases n - slots.len(),
    {
        slots.push(Vec::new());
    }
    slots
}

/// Whether a hash table lists positions of `tallies` only, and lists each
/// position in the slot into which its word falls.
pub open spec fn lists_all(slots: Seq<Vec<usize>>, tallies: Seq<Tally>) -> bool {
    &&& tallies.len() > 0 ==> slots.len() > 0
    &&& forall|s: int, k: int|
        0 <= s < slots.len() && 0 <= k < slots[s].len() ==> (#[trigger] slots[s]@[k])
            < tallies.len()
    &&& forall|i: int|
        0 <= i < tallies.len() ==> slots[slot_of(
            (#[trigger] tallies[i]).word,
            slots.len(),
        )]@.contains(i as usize)
}

/// A hash table that lists all of `entries` lists all of any tallies that
/// hold the same words at the same positions.
pub proof fn lemma_listing_ignores_counts(
    slots: Seq<Vec<usize>>,
    entries: Seq<Tally>,
    others: Seq<Tally>,
)
    requires
        lists_all(slots, entries),
        others.len() == entries.len(),
        forall|i: int| 0 <= i < entries.len() ==> (#[trigger] others[i]).word == entries[i].word,
    ensures
        lists_all(slots, others),
{
    assert forall|i: int| 0 <= i < others.len() implies slots[slot_of(
        (#[trigger] others[i]).word,
        slots.len(),
    )]@.contains(i as usize) by {
        assert(others[i].word == entries[i].word);
    }
}

/// A hash table that lists all of `entries` lists all of `entries` and one
/// more entry once the position of that entry is listed in the slot into
/// which its word falls.
pub proof fn lemma_listing_extended(
    before: Seq<Vec<usize>>,
    after: Seq<Vec<usize>>,
    entries: Seq<Tally>,
    entry: Tally,
)
    requires
        lists_all(before, entries),
        before.len() > 0,
        after.len() == before.len(),
        entries.len() <= usize::MAX,
        after[slot_of(entry.word, before.len())]@ == before[slot_of(
            entry.word,
            before.len(),
        )]@.push(entries.len() as usize),
        forall|s: int|
            0 <= s < before.len() && s != slot_of(entry.word, before.len()) ==> after[s]
                == before[s],
    ensures
        lists_all(after, entries.push(entry)),
{
    let slot = slot_of(entry.word, before.len());
    let longer = entries.push(entry);
    assert(0 <= slot < before.len());
    assert forall|s: int, k: int|
        0 <= s < after.len() && 0 <= k < after[s].len() implies (#[trigger] after[s]@[k])
        < longer.len() by {
        if s != slot || k < before[s].len() {
            assert(after[s]@[k] == before[s]@[k]);
        }
    }
    assert forall|i: int| 0 <= i < longer.len() implies after[slot_of(
        (#[trigger] longer[i]).word,
        after.len(),
    )]@.contains(i as usize) by {
        let t = slot_of(longer[i].word, after.len());
        if i < entries.len() {
            assert(longer[i] == entries[i]);
            assert(before[t]@.contains(i as usize));
            let k = choose|k: int| 0 <= k < before[t]@.len() && before[t]@[k] == i as usize;
            assert(after[t]@[k] == i as usize);
        } else {
            assert(after[t]@[before[t]@.len() as int] == i as usize);
        }
    }
}

/// Looks for the entry of `word` in the slot into which it falls.
pub fn find(
    entries: &Vec<CountedWord>,
    slots: &Vec<Vec<usize>>,
    slot: usize,
    word: &[u8],
) -> (found: Option<usize>)
    requires
        lists_all(slots@, entries.deep_view()),
        slots.len() > 0,
        slot == slot_of(word@, slots.len() as nat),
    ensures
        match found {
            Some(i) => i < entries.len() && entries[i as int].word@ == word@,
            None => forall|i: int|
                0 <= i < entries.len() ==> (#[trigger] entries[i]).word@ != word@,
        },
{
    let ghost tallies = entries.deep_view();
    let listed = &slots[slot];
    let mut k: usize = 0;
    while k < listed.len()
        invariant
            lists_all(slots@, tallies),
            tallies == entries.deep_view(),
            0 <= slot < slots.len(),
            listed == slots[slot as int],
            k <= listed.len(),
            forall|j: int| 0 <= j < k ==> tallies[listed@[j] as int].word != word@,
        decreases listed.len() - k,
    {
        let i = listed[k];
        if same_bytes(&entries[i].word, word) {
            return Some(i);
        }
        k += 1;
    }
    assert forall|i: int| 0 <= i < entries.len() implies (#[trigger] entries[i]).word@
        != word@ by {
        if entries[i].word@ == word@ {
            assert(tallies[i].word == word@);
            assert(listed@.contains(i as usize));
            let j = choose|j: int| 0 <= j < listed@.len() && listed@[j] == i as usize;
            assert(tallies[listed@[j] as int].word != word@);
        }
    }
    None
}

/// A hash table over `entries` with twice the slots of `slots`. A table
/// that has more than half of `usize::MAX` slots cannot double and stays as
/// it is.
pub fn grow(entries: &Vec<CountedWord>, slots: Vec<Vec<usize>>) -> (grown: Vec<Vec<usize>>)
    requires
        lists_all(slots@, entries.deep_view()),
        slots.len() > 0,
    ensures
        lists_all(grown@, entries.deep_view()),
        slots.len() <= usize::MAX / 2 ==> grown.len() == 2 * slots.len(),
        slots.len() > usize::MAX / 2 ==> grown@ == slots@,
{
    let n = slots.len();
    if n > usize::MAX / 2 {
        return slots;
    }
    let ghost tallies = entries.deep_view();
    let mut grown = empty_slots(2 * n);
    let mut i: usize = 0;
    while i < entries.len()
        invariant
            tallies == entries.deep_view(),
            grown.len() == 2 * n,
            n > 0,
            i <= entries.len(),
            lists_all(grown@, tallies.take(i as int)),
        decreases entries.len() - i,
    {
        let s = slot_index(&entries[i].word, grown.len());
        let ghost before = grown@;
        grown[s].push(i);
        proof {
            lemma_listing_extended(before, grown@, tallies.take(i as int), tallies[i as int]);
            assert(tallies.take(i + 1) =~= tallies.take(i as int).push(tallies[i as int]));
        }
        i += 1;
    }
    proof {
        assert(tallies.take(i as int) =~= tallies);
    }
    grown
}

} // verus!
