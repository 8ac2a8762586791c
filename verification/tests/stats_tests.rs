use backend_odyssey::{has_repeated_letters, is_palindrome, word_stats, WordStats};

#[test]
fn palindrome_ignores_case() {
    assert!(is_palindrome("Level"));
    assert!(is_palindrome("level"));
    assert!(is_palindrome(""));
    assert!(is_palindrome("a"));
    assert!(is_palindrome("\u{c9}t\u{e9}"));
}

#[test]
fn palindrome_keeps_non_letters() {
    assert!(!is_palindrome("level1"));
    assert!(!is_palindrome("Was it a car or a cat I saw"));
    assert!(is_palindrome("1 a 1"));
    assert!(!is_palindrome("hello"));
}

#[test]
fn repeated_letters() {
    assert!(has_repeated_letters("hello"));
    assert!(!has_repeated_letters("world"));
    assert!(!has_repeated_letters(""));
    assert!(has_repeated_letters("Aa"));
    assert!(has_repeated_letters("a b c"));
    assert!(has_repeated_letters("\u{c9}t\u{e9}"));
}

#[test]
fn stats_of_level() {
    let s = word_stats("Level");
    assert_eq!(
        s,
        WordStats {
            length: 5,
            vowel_count: 2,
            consonant_count: 3,
            unique_letters: 3,
            is_palindrome: true,
            has_repeated_letters: true,
            difficulty: 39,
            scrabble_score: 8,
        }
    );
}

#[test]
fn stats_of_quiz() {
    let s = word_stats("quiz");
    assert_eq!(s.length, 4);
    assert_eq!(s.vowel_count, 2);
    assert_eq!(s.consonant_count, 2);
    assert_eq!(s.unique_letters, 4);
    assert!(!s.is_palindrome);
    assert!(!s.has_repeated_letters);
    assert_eq!(s.difficulty, 50);
    assert_eq!(s.scrabble_score, 22);
}

#[test]
fn stats_of_the_empty_word() {
    let s = word_stats("");
    assert_eq!(
        s,
        WordStats {
            length: 0,
            vowel_count: 0,
            consonant_count: 0,
            unique_letters: 0,
            is_palindrome: true,
            has_repeated_letters: false,
            difficulty: 0,
            scrabble_score: 0,
        }
    );
}

#[test]
fn stats_leave_non_letters_out_of_both_counts() {
    let s = word_stats("a1-B e!");
    assert_eq!(s.length, 7);
    assert_eq!(s.vowel_count, 2);
    assert_eq!(s.consonant_count, 1);
    assert_eq!(s.unique_letters, 7);
    assert!(!s.has_repeated_letters);
}

#[test]
fn stats_count_bytes_and_letters_of_other_scripts() {
    let s = word_stats("\u{e9}t\u{e9}");
    assert_eq!(s.length, 5);
    assert_eq!(s.vowel_count, 0);
    assert_eq!(s.consonant_count, 3);
    assert_eq!(s.unique_letters, 2);
    assert!(s.is_palindrome);
    assert!(s.has_repeated_letters);
}

#[test]
fn stats_are_the_same_when_asked_again() {
    for w in ["", "hello", "Level", "strength", "a1-B e!", "\u{130}stanbul"] {
        assert_eq!(word_stats(w), word_stats(w));
    }
}

#[test]
fn repeated_letters_mean_fewer_unique_than_characters() {
    for w in ["", "hello", "world", "Level", "Aa", "\u{c9}t\u{e9}", "abc abc"] {
        let s = word_stats(w);
        assert_eq!(s.has_repeated_letters, s.unique_letters < w.chars().count());
        assert_eq!(s.has_repeated_letters, has_repeated_letters(w));
        assert_eq!(s.is_palindrome, is_palindrome(w));
    }
}
