use lib_word_count::rank::bytes_less;
use lib_word_count::token::{is_alphanumeric, to_lowercase};
use lib_word_count::word_index::CountedWord;

fn entry(word: &str, count: usize) -> CountedWord {
    CountedWord { word: word.as_bytes().into(), count }
}

#[test]
fn word_bytes_are_ascii_letters_and_digits() {
    for b in 0..=255u8 {
        assert_eq!(is_alphanumeric(b), b.is_ascii_alphanumeric());
    }
    assert!(is_alphanumeric(b'0') && is_alphanumeric(b'9'));
    assert!(is_alphanumeric(b'A') && is_alphanumeric(b'Z'));
    assert!(is_alphanumeric(b'a') && is_alphanumeric(b'z'));
    assert!(!is_alphanumeric(b'/') && !is_alphanumeric(b':'));
    assert!(!is_alphanumeric(b'@') && !is_alphanumeric(b'['));
    assert!(!is_alphanumeric(b'`') && !is_alphanumeric(b'{'));
    assert!(!is_alphanumeric(b'_') && !is_alphanumeric(b' ') && !is_alphanumeric(0xe9));
}

#[test]
fn folding_is_ascii_lowercase() {
    for b in 0..=255u8 {
        assert_eq!(to_lowercase(b), b.to_ascii_lowercase());
        assert_eq!(to_lowercase(to_lowercase(b)), to_lowercase(b));
        assert_eq!(is_alphanumeric(to_lowercase(b)), is_alphanumeric(b));
    }
    assert_eq!(to_lowercase(b'A'), b'a');
    assert_eq!(to_lowercase(b'Z'), b'z');
    assert_eq!(to_lowercase(b'm'), b'm');
    assert_eq!(to_lowercase(b'7'), b'7');
    assert_eq!(to_lowercase(b'@'), b'@');
    assert_eq!(to_lowercase(b'['), b'[');
    assert_eq!(to_lowercase(0xc9), 0xc9);
}

#[test]
fn bytes_less_is_the_lexicographic_order() {
    let samples: [&[u8]; 12] = [
        b"", b"a", b"aa", b"ab", b"abc", b"abd", b"b", b"B", b"0", b"a0", &[0xff], &[0x00, 0x01],
    ];
    for a in samples {
        for b in samples {
            assert_eq!(bytes_less(a, b), a < b);
        }
    }
    assert!(bytes_less(b"", b"a"));
    assert!(bytes_less(b"ab", b"abc"));
    assert!(bytes_less(b"abc", b"abd"));
    assert!(!bytes_less(b"abc", b"abc"));
    assert!(!bytes_less(b"b", b"abc"));
}

#[test]
fn higher_count_ranks_above() {
    assert!(entry("zebra", 3).ranks_above(&entry("apple", 2)));
    assert!(!entry("apple", 2).ranks_above(&entry("zebra", 3)));
}

#[test]
fn equal_counts_rank_by_word() {
    assert!(entry("apple", 2).ranks_above(&entry("zebra", 2)));
    assert!(!entry("zebra", 2).ranks_above(&entry("apple", 2)));
    assert!(entry("app", 2).ranks_above(&entry("apple", 2)));
}

#[test]
fn nothing_ranks_above_itself() {
    assert!(!entry("same", 4).ranks_above(&entry("same", 4)));
    assert!(!entry("", 0).ranks_above(&entry("", 0)));
}
