use backend_odyssey::chars::{chars_of, is_lower_letter, to_ascii_lower};
use backend_odyssey::distinct::{code_point, count_distinct, has_duplicate};
use backend_odyssey::lines::split_lines;
use backend_odyssey::lookup::find_in_sorted;
use backend_odyssey::pattern::letter_class_source;
use backend_odyssey::scoring::{
    combine_difficulty, count_consonant_runs, is_lower_vowel, letter_rarity, rarity_score,
    tile_points,
};
use backend_odyssey::sorting::{arrange, chars_le, sorted_positions, KeyColumn};
use backend_odyssey::stats::{count_consonants, count_vowels, fold_chars, reads_both_ways};
use backend_odyssey::letter_multiset::{strip_non_letters, tally_letters};
use backend_odyssey::words::split_words;

fn chars(s: &str) -> Vec<char> {
    s.chars().collect()
}

#[test]
fn ascii_letters_fold_to_lower_case() {
    assert_eq!(to_ascii_lower('A'), 'a');
    assert_eq!(to_ascii_lower('Z'), 'z');
    assert_eq!(to_ascii_lower('m'), 'm');
    assert_eq!(to_ascii_lower('@'), '@');
    assert_eq!(to_ascii_lower('['), '[');
    assert_eq!(to_ascii_lower('\u{c9}'), '\u{c9}');
    for c in ['\0', ' ', '0', 'A', 'Q', 'Z', 'a', 'z', '{', '\u{7f}', '\u{e9}', '\u{10ffff}'] {
        assert_eq!(to_ascii_lower(c), c.to_ascii_lowercase());
        assert_eq!(is_lower_letter(c), c.is_ascii_lowercase());
    }
}

#[test]
fn characters_of_a_text() {
    assert_eq!(chars_of("h\u{e9}llo"), vec!['h', '\u{e9}', 'l', 'l', 'o']);
    assert!(chars_of("").is_empty());
}

#[test]
fn lines_end_at_line_feeds() {
    assert_eq!(split_lines("a\nb\nc"), vec!["a", "b", "c"]);
    assert_eq!(split_lines("a\nb\nc\n"), vec!["a", "b", "c"]);
    assert_eq!(split_lines("a\n\nb\n\n"), vec!["a", "", "b", ""]);
    assert_eq!(split_lines("\n"), vec![""]);
    assert!(split_lines("").is_empty());
    assert_eq!(split_lines("one"), vec!["one"]);
}

#[test]
fn lines_lose_the_carriage_return_before_a_line_feed() {
    assert_eq!(split_lines("a\r\nb\r\n"), vec!["a", "b"]);
    assert_eq!(split_lines("a\r\r\nb"), vec!["a\r", "b"]);
    assert_eq!(split_lines("a\rb\nc\r"), vec!["a\rb", "c\r"]);
    assert_eq!(split_lines("\r\n"), vec![""]);
    assert_eq!(split_lines("\r"), vec!["\r"]);
}

#[test]
fn lines_are_those_of_the_standard_library() {
    for text in ["", "\n", "\r\n", "a", "a\n", "a\r", "a\r\n\r\nb", "\n\n\n", "x\ny\r\nz\r", "\r\r\n\r"] {
        let expected: Vec<String> = text.lines().map(|l| l.to_string()).collect();
        assert_eq!(split_lines(text), expected, "{text:?}");
    }
}

#[test]
fn pattern_names_class_and_minimum() {
    assert_eq!(letter_class_source(&chars("ehlo"), 3), "^[ehlo]{3,}$");
    assert_eq!(letter_class_source(&chars("a"), 0), "^[a]{0,}$");
    assert_eq!(letter_class_source(&chars("xyz"), 10), "^[xyz]{10,}$");
    assert_eq!(letter_class_source(&chars("q"), 12345), "^[q]{12345,}$");
    assert_eq!(
        letter_class_source(&chars("ab"), usize::MAX),
        format!("^[ab]{{{},}}$", usize::MAX)
    );
}

#[test]
fn letters_are_tallied_after_folding() {
    let m = tally_letters(&chars("Aa-bB!b"));
    assert_eq!(m.count('a'), 2);
    assert_eq!(m.count('b'), 3);
    assert_eq!(m.count('A'), 0);
    assert_eq!(m.count('-'), 0);
}

#[test]
fn different_characters_are_counted_once() {
    assert_eq!(count_distinct(&chars("")), 0);
    assert_eq!(count_distinct(&chars("aaa")), 1);
    assert_eq!(count_distinct(&chars("hello")), 4);
    assert_eq!(count_distinct(&chars("aA\u{e9}\u{c9} ")), 5);
    assert!(!has_duplicate(&chars("")));
    assert!(!has_duplicate(&chars("world")));
    assert!(has_duplicate(&chars("hello")));
    assert!(!has_duplicate(&chars("aA")));
    assert_eq!(code_point('a'), 97);
    assert_eq!(code_point('\u{10ffff}'), 0x10ffff);
}

#[test]
fn tiles_and_rarities() {
    assert_eq!(tile_points('Q'), 10);
    assert_eq!(tile_points('e'), 1);
    assert_eq!(tile_points('?'), 0);
    assert_eq!(letter_rarity('e'), 30);
    assert_eq!(letter_rarity('E'), 30);
    assert_eq!(letter_rarity('z'), 1293);
    assert_eq!(letter_rarity('j'), 1285);
    assert_eq!(letter_rarity('x'), 1285);
    assert_eq!(letter_rarity('\u{e9}'), 0);
    let table = [
        ('e', 1270), ('t', 906), ('a', 817), ('o', 751), ('i', 697), ('n', 675), ('s', 633),
        ('h', 609), ('r', 599), ('d', 425), ('l', 403), ('c', 278), ('u', 276), ('m', 241),
        ('w', 236), ('f', 223), ('g', 202), ('y', 197), ('p', 193), ('b', 129), ('v', 98),
        ('k', 77), ('j', 15), ('x', 15), ('q', 10), ('z', 7),
    ];
    for (c, share) in table {
        assert_eq!(letter_rarity(c), 1300 - share, "{c}");
    }
    assert_eq!(rarity_score(&chars("")), 0);
    assert_eq!(rarity_score(&chars("eee")), 0);
    assert_eq!(rarity_score(&chars("eeee")), 1);
    assert_eq!(rarity_score(&chars("quiz")), 42);
    assert_eq!(rarity_score(&chars(&"z".repeat(19))), 245);
    assert_eq!(rarity_score(&chars(&"z".repeat(20))), 255);
    assert_eq!(rarity_score(&chars(&"z".repeat(5000))), 255);
}

#[test]
fn consonant_windows_overlap() {
    assert_eq!(count_consonant_runs(&chars("")), 0);
    assert_eq!(count_consonant_runs(&chars("st")), 0);
    assert_eq!(count_consonant_runs(&chars("str")), 1);
    assert_eq!(count_consonant_runs(&chars("strs")), 2);
    assert_eq!(count_consonant_runs(&chars("strength")), 3);
    assert_eq!(count_consonant_runs(&chars("aeiou")), 0);
    assert_eq!(count_consonant_runs(&chars("STR")), 1);
    assert_eq!(count_consonant_runs(&chars("AST")), 1);
    assert!(is_lower_vowel('a'));
    assert!(!is_lower_vowel('A'));
    assert!(!is_lower_vowel('y'));
}

#[test]
fn difficulty_parts_add_up_to_at_most_255() {
    assert_eq!(combine_difficulty(0, 0, 0, 0), 0);
    assert_eq!(combine_difficulty(4, 4, 42, 0), 50);
    assert_eq!(combine_difficulty(8, 7, 46, 3), 67);
    assert_eq!(combine_difficulty(100, 100, 50, 2), 254);
    assert_eq!(combine_difficulty(100, 100, 51, 2), 255);
    assert_eq!(combine_difficulty(0, 0, 0, 127), 254);
    assert_eq!(combine_difficulty(0, 0, 0, 128), 255);
    assert_eq!(combine_difficulty(usize::MAX, usize::MAX, 255, usize::MAX), 255);
    assert_eq!(combine_difficulty(255, 0, 0, 0), 255);
}

#[test]
fn words_in_dictionary_order() {
    assert!(chars_le(&chars(""), &chars("")));
    assert!(chars_le(&chars(""), &chars("a")));
    assert!(!chars_le(&chars("a"), &chars("")));
    assert!(chars_le(&chars("app"), &chars("apple")));
    assert!(!chars_le(&chars("apple"), &chars("app")));
    assert!(chars_le(&chars("apple"), &chars("apple")));
    assert!(chars_le(&chars("Zebra"), &chars("apple")));
    assert!(chars_le(&chars("z"), &chars("\u{e9}")));
    for (a, b) in [("a", "b"), ("ab", "a"), ("", "x"), ("\u{e9}", "z"), ("same", "same")] {
        assert_eq!(chars_le(&chars(a), &chars(b)), a <= b);
    }
}

#[test]
fn rows_are_listed_in_stable_order() {
    let col = KeyColumn::Numbers(vec![3, 1, 2, 1, 3, 0]);
    assert_eq!(sorted_positions(&col), vec![5, 1, 3, 2, 0, 4]);
    let col = KeyColumn::Texts(vec![chars("b"), chars("a"), chars("b"), chars("")]);
    assert_eq!(sorted_positions(&col), vec![3, 1, 0, 2]);
    assert!(sorted_positions(&KeyColumn::Numbers(Vec::new())).is_empty());
    let words = vec!["x".to_string(), "y".to_string(), "z".to_string()];
    assert_eq!(arrange(&words, &vec![2, 0, 1]), vec!["z", "x", "y"]);
    assert_eq!(arrange(&words, &vec![1, 1]), vec!["y", "y"]);
}

#[test]
fn sorted_list_is_searched_by_halving() {
    let words: Vec<String> = ["ant", "bee", "cat", "dog", "eel"].iter().map(|w| w.to_string()).collect();
    for w in ["ant", "bee", "cat", "dog", "eel"] {
        assert!(find_in_sorted(&words, &chars(w)));
    }
    for w in ["", "a", "bat", "cow", "zebra", "Ant"] {
        assert!(!find_in_sorted(&words, &chars(w)));
    }
}

#[test]
fn vowels_consonants_and_mirrors() {
    assert_eq!(count_vowels(&chars("AEIOUaeiou")), 10);
    assert_eq!(count_vowels(&chars("rhythm, 123")), 0);
    assert_eq!(count_consonants(&chars("rhythm, 123")), 6);
    assert_eq!(count_consonants(&chars("\u{e9}\u{4eac}y ")), 3);
    assert_eq!(fold_chars(&chars("AbC\u{c9}1")), chars("abc\u{e9}1"));
    assert_eq!(fold_chars(&chars("\u{130}")), chars("i"));
    assert!(reads_both_ways(&chars("")));
    assert!(reads_both_ways(&chars("abba")));
    assert!(reads_both_ways(&chars("aba")));
    assert!(!reads_both_ways(&chars("abca")));
    assert!(!reads_both_ways(&chars("ab")));
}

#[test]
fn words_are_cut_at_white_space() {
    assert_eq!(split_words("  apple banana\tcherry\n\n damson "), vec!["apple", "banana", "cherry", "damson"]);
    assert!(split_words("").is_empty());
    assert!(split_words(" \n\t ").is_empty());
    assert_eq!(split_words("one"), vec!["one"]);
    assert_eq!(split_words("a\u{a0}b\u{2003}c\u{3000}d"), vec!["a", "b", "c", "d"]);
    assert_eq!(split_words("a\u{200b}b"), vec!["a\u{200b}b"]);
    for text in ["", " ", "a", " a", "a ", " a b ", "\r\n", "x\ty\nz", "\u{1680}w\u{2028}v", "a  b   c"] {
        let expected: Vec<String> = text.split_whitespace().map(|w| w.to_string()).collect();
        assert_eq!(split_words(text), expected, "{text:?}");
    }
}

#[test]
fn non_letters_are_taken_out() {
    assert_eq!(strip_non_letters(&chars("he-llo, w0rld! 42")), chars("hellowrld"));
    assert_eq!(strip_non_letters(&chars("")), chars(""));
    assert_eq!(strip_non_letters(&chars("ABC def\nGHI")), chars("def"));
    assert_eq!(strip_non_letters(&chars("\u{e9}a\u{df}z{`")), chars("az"));
    assert_eq!(strip_non_letters(&chars("a\nb\r\nc\0d")), chars("abcd"));
    assert_eq!(strip_non_letters(&chars("$1 ${a} \\")), chars("a"));
    for text in ["", "abc", "a b c", "ABC", "x-y_z", "\t\n", "\u{4eac}\u{430}bc", "a^b[c]d-e"] {
        let expected: Vec<char> = text.chars().filter(|c| c.is_ascii_lowercase()).collect();
        assert_eq!(strip_non_letters(&chars(text)), expected, "{text:?}");
    }
}
