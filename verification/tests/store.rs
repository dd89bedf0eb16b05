use lib_word_count::word_index::{CountedWord, WordStore};

fn entry(word: &str, count: usize) -> CountedWord {
    CountedWord { word: word.as_bytes().into(), count }
}

#[test]
fn counted_word_holds_word_and_count() {
    let indexed_word = CountedWord { word: "Text".as_bytes().into(), count: 12 };
    assert_eq!(indexed_word.word.as_ref(), "Text".as_bytes());
    assert_eq!(indexed_word.count, 12);
}

#[test]
fn new_store_is_empty() {
    assert_eq!(WordStore::new().sort_words(), Vec::new());
}

#[test]
fn default_store_is_empty() {
    assert_eq!(WordStore::default().sort_words(), Vec::new());
}

#[test]
fn default_store_counts_like_a_new_one() {
    let mut store = WordStore::default();
    store.add_word("b".as_bytes());
    store.add_word("a".as_bytes());
    store.add_word("b".as_bytes());
    assert_eq!(store.sort_words(), vec![entry("b", 2), entry("a", 1)]);
}

#[test]
fn first_occurrence_counts_one() {
    let mut store = WordStore::new();
    store.add_word("once".as_bytes());
    assert_eq!(store.sort_words(), vec![entry("once", 1)]);
}

#[test]
fn repeated_word_counts_up() {
    let mut store = WordStore::new();
    store.add_word("hello".as_bytes());
    store.add_word("world".as_bytes());
    store.add_word("hello".as_bytes());
    store.add_word("hello".as_bytes());
    assert_eq!(store.sort_words(), vec![entry("hello", 3), entry("world", 1)]);
}

#[test]
fn store_keeps_words_as_given() {
    let mut word_store = WordStore::new();
    word_store.add_word("Hello".as_bytes());
    word_store.add_word("hELLO".as_bytes());
    word_store.add_word("World".as_bytes());
    word_store.add_word("HELLO".as_bytes());
    word_store.add_word("PFUDOR".as_bytes());
    assert_eq!(
        word_store.sort_words(),
        vec![
            entry("HELLO", 1),
            entry("Hello", 1),
            entry("PFUDOR", 1),
            entry("World", 1),
            entry("hELLO", 1),
        ]
    );
}

#[test]
fn store_owns_its_words() {
    let mut store = WordStore::new();
    let mut buffer = "first".as_bytes().to_vec();
    store.add_word(&buffer);
    buffer.clear();
    buffer.extend_from_slice("second".as_bytes());
    store.add_word(&buffer);
    buffer[0] = b'x';
    store.add_word("first".as_bytes());
    drop(buffer);
    assert_eq!(store.sort_words(), vec![entry("first", 2), entry("second", 1)]);
}

#[test]
fn order_of_adding_does_not_matter() {
    let words = ["pear", "apple", "fig", "apple", "pear", "apple", "kiwi"];
    let mut forward = WordStore::new();
    for w in words {
        forward.add_word(w.as_bytes());
    }
    let mut backward = WordStore::new();
    for w in words.iter().rev() {
        backward.add_word(w.as_bytes());
    }
    let expected =
        vec![entry("apple", 3), entry("pear", 2), entry("fig", 1), entry("kiwi", 1)];
    assert_eq!(forward.sort_words(), expected);
    assert_eq!(backward.sort_words(), expected);
}

#[test]
fn store_grows_past_its_first_slots() {
    let mut store = WordStore::new();
    for round in 0..5usize {
        for i in 0..500usize {
            if i % (round + 1) == 0 {
                store.add_word(format!("w{:03}", i).as_bytes());
            }
        }
    }
    let ranking = store.sort_words();
    assert_eq!(ranking.len(), 500);
    let total: usize = ranking.iter().map(|e| e.count).sum();
    assert_eq!(total, 500 + 250 + 167 + 125 + 100);
    assert_eq!(ranking[0], entry("w000", 5));
    assert_eq!(ranking[1], entry("w060", 5));
    for e in &ranking {
        let i: usize = std::str::from_utf8(&e.word[1..]).unwrap().parse().unwrap();
        let expected = (1..=5usize).filter(|d| i % d == 0).count();
        assert_eq!(e.count, expected);
    }
    for pair in ranking.windows(2) {
        assert!(
            pair[0].count > pair[1].count
                || (pair[0].count == pair[1].count && pair[0].word < pair[1].word)
        );
    }
}

#[test]
fn words_that_differ_in_one_byte_are_told_apart() {
    let mut store = WordStore::new();
    for last in 0..=255u8 {
        store.add_word(&[b'k', last]);
        if last % 2 == 0 {
            store.add_word(&[b'k', last]);
        }
    }
    let ranking = store.sort_words();
    assert_eq!(ranking.len(), 256);
    for (i, e) in ranking.iter().enumerate() {
        let (last, count) = if i < 128 { (2 * i, 2) } else { (2 * (i - 128) + 1, 1) };
        assert_eq!(e.word.as_ref(), &[b'k', last as u8]);
        assert_eq!(e.count, count);
    }
}

fn store_of(words: &[&str]) -> WordStore {
    let mut store = WordStore::new();
    for w in words {
        store.add_word(w.as_bytes());
    }
    store
}

#[test]
fn empty_stores_are_equal() {
    assert_eq!(WordStore::new(), WordStore::default());
    assert!(WordStore::new() == store_of(&[]));
}

#[test]
fn stores_with_the_same_counts_are_equal() {
    let a = store_of(&["pear", "apple", "fig", "apple", "pear", "apple"]);
    let b = store_of(&["apple", "apple", "apple", "fig", "pear", "pear"]);
    assert!(a == b);
    assert!(b == a);
    assert_eq!(a, b);
}

#[test]
fn stores_with_different_counts_differ() {
    let a = store_of(&["pear", "apple", "apple"]);
    let b = store_of(&["pear", "pear", "apple"]);
    assert!(a != b);
    assert!(b != a);
}

#[test]
fn store_with_one_more_word_differs() {
    let a = store_of(&["pear", "apple"]);
    let b = store_of(&["pear", "apple", "fig"]);
    assert!(a != b);
    assert!(b != a);
    assert!(a != WordStore::new());
    assert!(WordStore::new() != a);
}

#[test]
fn stores_with_other_words_differ() {
    let a = store_of(&["pear", "apple"]);
    let b = store_of(&["pear", "Apple"]);
    assert!(a != b);
    assert!(b != a);
}

#[test]
fn grown_stores_are_equal_whatever_the_order() {
    let mut a = WordStore::new();
    let mut b = WordStore::new();
    for i in 0..400usize {
        a.add_word(format!("n{}", i).as_bytes());
        b.add_word(format!("n{}", 399 - i).as_bytes());
    }
    assert!(a == b);
    b.add_word("n7".as_bytes());
    assert!(a != b);
    a.add_word("n7".as_bytes());
    assert!(a == b);
}

#[test]
fn counted_words_compare_by_word_and_count() {
    assert!(entry("same", 2) == entry("same", 2));
    assert!(entry("same", 2) != entry("same", 3));
    assert!(entry("same", 2) != entry("sane", 2));
    assert!(entry("same", 2) != entry("sam", 2));
    assert!(entry("", 0) == entry("", 0));
}
