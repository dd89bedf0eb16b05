use lib_word_count::count_words;
use lib_word_count::word_index::CountedWord;
use std::collections::HashMap;

fn entry(word: &str, count: usize) -> CountedWord {
    CountedWord { word: word.as_bytes().into(), count }
}

fn entries(pairs: &[(&str, usize)]) -> Vec<CountedWord> {
    pairs.iter().map(|(word, count)| entry(word, *count)).collect()
}

/// The number of places in `text` at which a run of letters and digits starts.
fn runs(text: &[u8]) -> usize {
    let mut n = 0;
    for i in 0..text.len() {
        if text[i].is_ascii_alphanumeric() && (i == 0 || !text[i - 1].is_ascii_alphanumeric()) {
            n += 1;
        }
    }
    n
}

/// Counts and ranks the words of `text` with the standard library alone.
fn counted_by_hand(text: &[u8]) -> Vec<CountedWord> {
    let mut counts: HashMap<Vec<u8>, usize> = HashMap::new();
    for run in text.split(|b| !b.is_ascii_alphanumeric()) {
        if !run.is_empty() {
            *counts.entry(run.to_ascii_lowercase()).or_insert(0) += 1;
        }
    }
    let mut ranking: Vec<(Vec<u8>, usize)> = counts.into_iter().collect();
    ranking.sort_by(|a, b| b.1.cmp(&a.1).then(a.0.cmp(&b.0)));
    ranking
        .into_iter()
        .map(|(word, count)| CountedWord { word: word.into_boxed_slice(), count })
        .collect()
}

#[test]
fn cookies_are_ranked_first() {
    let word_index = count_words("I like cookies. Mmm... Cookies.".as_bytes());
    assert_eq!(word_index.len(), 4);
    assert_eq!(word_index[0].word.as_ref(), "cookies".as_bytes());
    assert_eq!(word_index[0].count, 2);
    let words = ["i".as_bytes(), "like".as_bytes(), "mmm".as_bytes()];
    assert!(words.contains(&word_index[1].word.as_ref()));
    assert!(words.contains(&word_index[2].word.as_ref()));
    assert!(words.contains(&word_index[3].word.as_ref()));
    assert_eq!(word_index[1].count, 1);
    assert_eq!(word_index[2].count, 1);
    assert_eq!(word_index[3].count, 1);
}

#[test]
fn ties_stand_in_lexicographic_order() {
    let ranking = count_words("I like cookies. Mmm... Cookies.".as_bytes());
    assert_eq!(ranking, entries(&[("cookies", 2), ("i", 1), ("like", 1), ("mmm", 1)]));
}

#[test]
fn case_is_folded() {
    let ranking = count_words("HELLO hello HeLLo".as_bytes());
    assert_eq!(ranking, entries(&[("hello", 3)]));
}

#[test]
fn folded_text_counts_the_same() {
    let text = "The Quick brown FOX jumps over the lazy dog; the fox!";
    assert_eq!(
        count_words(text.as_bytes()),
        count_words(text.to_ascii_lowercase().as_bytes())
    );
    assert_eq!(
        count_words(text.as_bytes()),
        count_words(text.to_ascii_uppercase().as_bytes())
    );
}

#[test]
fn separators_collapse() {
    let ranking = count_words("a,,,,b".as_bytes());
    assert_eq!(ranking, entries(&[("a", 1), ("b", 1)]));
}

#[test]
fn separators_at_both_ends_leave_no_token() {
    let ranking = count_words("  ..one, two;;  ".as_bytes());
    assert_eq!(ranking, entries(&[("one", 1), ("two", 1)]));
}

#[test]
fn empty_text_has_no_words() {
    assert_eq!(count_words("".as_bytes()), Vec::new());
}

#[test]
fn text_without_word_bytes_has_no_words() {
    assert_eq!(count_words("...,,,".as_bytes()), Vec::new());
    assert_eq!(count_words(" \t\r\n".as_bytes()), Vec::new());
}

#[test]
fn last_word_is_counted_without_a_separator() {
    let ranking = count_words("cat dog".as_bytes());
    assert_eq!(ranking, entries(&[("cat", 1), ("dog", 1)]));
}

#[test]
fn single_word_is_counted() {
    assert_eq!(count_words("word".as_bytes()), entries(&[("word", 1)]));
    assert_eq!(count_words("x".as_bytes()), entries(&[("x", 1)]));
}

#[test]
fn digits_belong_to_words() {
    let ranking = count_words("abc123 123 abc 2nd".as_bytes());
    assert_eq!(ranking, entries(&[("123", 1), ("2nd", 1), ("abc", 1), ("abc123", 1)]));
}

#[test]
fn bytes_outside_ascii_separate_words() {
    let ranking = count_words("caf\u{e9} na\u{ef}ve \u{fc}ber".as_bytes());
    assert_eq!(ranking, entries(&[("ber", 1), ("caf", 1), ("na", 1), ("ve", 1)]));
    let ranking = count_words(&[0x61, 0xff, 0x62, 0x80, 0x61, 0x00, 0x7f, 0x62, 0x62]);
    assert_eq!(ranking, entries(&[("a", 2), ("b", 1), ("bb", 1)]));
}

#[test]
fn punctuation_next_to_letters_and_digits_separates() {
    let ranking = count_words("/09:@AZ[`az{".as_bytes());
    assert_eq!(ranking, entries(&[("az", 2), ("09", 1)]));
}

#[test]
fn higher_count_stands_before_smaller_word() {
    let ranking = count_words("b a b c c c a b".as_bytes());
    assert_eq!(ranking, entries(&[("b", 3), ("c", 3), ("a", 2)]));
}

#[test]
fn prefix_stands_before_longer_word() {
    let ranking = count_words("abc ab a abd b".as_bytes());
    assert_eq!(ranking, entries(&[("a", 1), ("ab", 1), ("abc", 1), ("abd", 1), ("b", 1)]));
}

#[test]
fn counts_add_up_to_the_number_of_runs() {
    let texts = [
        "",
        "one",
        "I like cookies. Mmm... Cookies.",
        "a,,,,b",
        "cat dog",
        "  x  y  x  ",
        "It was the best of times, it was the worst of times, it was the age of wisdom",
    ];
    for text in texts {
        let ranking = count_words(text.as_bytes());
        let sum: usize = ranking.iter().map(|e| e.count).sum();
        assert_eq!(sum, runs(text.as_bytes()));
    }
    let ranking = count_words("It was the best of times, it was the worst of times".as_bytes());
    let sum: usize = ranking.iter().map(|e| e.count).sum();
    assert_eq!(sum, 12);
}

#[test]
fn no_word_stands_twice() {
    let ranking = count_words("to be or not to be that is the question to be".as_bytes());
    for i in 0..ranking.len() {
        for j in i + 1..ranking.len() {
            assert_ne!(ranking[i].word, ranking[j].word);
        }
    }
    assert_eq!(ranking.len(), 8);
}

#[test]
fn counts_never_go_up() {
    let ranking = count_words("to be or not to be that is the question to be".as_bytes());
    for pair in ranking.windows(2) {
        assert!(pair[0].count >= pair[1].count);
    }
    assert_eq!(
        ranking,
        entries(&[
            ("be", 3),
            ("to", 3),
            ("is", 1),
            ("not", 1),
            ("or", 1),
            ("question", 1),
            ("that", 1),
            ("the", 1),
        ])
    );
}

#[test]
fn words_of_the_result_are_normalized() {
    let ranking = count_words("Mixed CASE, 4 Digits99 and-dashes_underscores".as_bytes());
    for e in &ranking {
        assert!(!e.word.is_empty());
        for b in e.word.iter() {
            assert!(b.is_ascii_lowercase() || b.is_ascii_digit());
        }
    }
    assert_eq!(
        ranking,
        entries(&[
            ("4", 1),
            ("and", 1),
            ("case", 1),
            ("dashes", 1),
            ("digits99", 1),
            ("mixed", 1),
            ("underscores", 1),
        ])
    );
}

#[test]
fn one_word_many_times() {
    let text = "again ".repeat(10_000);
    assert_eq!(count_words(text.as_bytes()), entries(&[("again", 10_000)]));
}

#[test]
fn many_distinct_words_agree_with_a_count_by_hand() {
    let mut text = String::new();
    for i in 0..3_000usize {
        for _ in 0..(i % 7) + 1 {
            text.push_str(&format!("W{} ", i * 7919 % 3_001));
        }
        text.push_str(if i % 3 == 0 { "\n" } else { ", " });
    }
    let ranking = count_words(text.as_bytes());
    assert_eq!(ranking.len(), 3_000);
    assert_eq!(ranking, counted_by_hand(text.as_bytes()));
}

#[test]
fn prose_agrees_with_a_count_by_hand() {
    let text = "It was the best of times, it was the worst of times, it was the age of \
                wisdom, it was the age of foolishness, it was the epoch of belief, it was \
                the epoch of incredulity, it was the season of Light, it was the season of \
                Darkness, it was the spring of hope, it was the winter of despair.";
    let ranking = count_words(text.as_bytes());
    assert_eq!(ranking, counted_by_hand(text.as_bytes()));
    assert_eq!(ranking[0], entry("it", 10));
    assert_eq!(ranking[1], entry("of", 10));
    assert_eq!(ranking[2], entry("the", 10));
    assert_eq!(ranking[3], entry("was", 10));
}

#[test]
fn every_byte_value_agrees_with_a_count_by_hand() {
    let mut text: Vec<u8> = Vec::new();
    for round in 0..3u16 {
        for b in 0..=255u16 {
            text.push(b as u8);
            if (b + round) % 5 == 0 {
                text.push(b'q');
            }
        }
    }
    assert_eq!(count_words(&text), counted_by_hand(&text));
}
