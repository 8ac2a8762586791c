use backend_odyssey::{build_multiset, filter_candidates, is_subset, letters};

const WORDS: &str = "bye\nell\nhell\nhello\nhoe\nhole\nhelp\nloll\nHello\nyew\n";

#[test]
fn test_letters() {
    let wordlist = String::from("bye\nell\nhell\nhello\nhoe\nhole\n");

    let (result, _) = letters("hello", &wordlist, 3);
    assert_eq!(result.join(","), "hello,hell,hole,ell,hoe");

    let (result, _) = letters("bye", &wordlist, 3);
    assert_eq!(result.join(","), "bye");

    let (result, _) = letters("bye", &wordlist, 4);
    assert_eq!(result.join(","), "");
}

#[test]
fn finds_sub_anagrams_longest_first() {
    let (found, echoed) = letters("hello", WORDS, 3);
    assert_eq!(found, vec!["hello", "hell", "hole", "ell", "hoe"]);
    assert_eq!(echoed, "hello");
}

#[test]
fn no_long_word_from_three_letters() {
    let (found, echoed) = letters("bye", WORDS, 4);
    assert!(found.is_empty());
    assert_eq!(echoed, "bye");
}

#[test]
fn input_is_echoed_as_given() {
    let (found, echoed) = letters("  He-LLo! ", WORDS, 4);
    assert_eq!(found, vec!["hello", "hell", "hole"]);
    assert_eq!(echoed, "  He-LLo! ");
}

#[test]
fn every_result_is_long_enough_and_covered() {
    let pool = build_multiset("hello");
    for min in 0..7usize {
        let (found, _) = letters("hello", WORDS, min);
        for w in &found {
            assert!(w.chars().count() >= min);
            assert!(is_subset(&build_multiset(w), &pool));
            assert!(w.chars().all(|c| c.is_ascii_lowercase()));
        }
        for line in WORDS.lines() {
            let fits = line.len() >= min
                && line.chars().all(|c| c.is_ascii_lowercase())
                && is_subset(&build_multiset(line), &pool);
            assert_eq!(found.iter().any(|w| w == line), fits, "{line} at {min}");
        }
    }
}

#[test]
fn letter_used_too_often_is_rejected() {
    let (found, _) = letters("helo", "hello\nhole\nloll\n", 1);
    assert_eq!(found, vec!["hole"]);
}

#[test]
fn empty_pool_finds_nothing() {
    let (found, echoed) = letters("123 !?", WORDS, 1);
    assert!(found.is_empty());
    assert_eq!(echoed, "123 !?");
    let (found, _) = letters("", WORDS, 0);
    assert!(found.is_empty());
}

#[test]
fn empty_pool_admits_only_empty_lines() {
    let (found, _) = letters("", "a\n\nb\n\n", 0);
    assert_eq!(found, vec!["", ""]);
    let (found, _) = letters("", "a\n\nb\n\n", 1);
    assert!(found.is_empty());
}

#[test]
fn empty_word_list() {
    let (found, _) = letters("hello", "", 0);
    assert!(found.is_empty());
}

#[test]
fn uppercase_lines_do_not_pass() {
    let (found, _) = letters("hello", "Hello\nHELL\nhell\n", 1);
    assert_eq!(found, vec!["hell"]);
}

#[test]
fn carriage_returns_end_lines() {
    let (found, _) = letters("hello", "hell\r\nhole\r\nell", 3);
    assert_eq!(found, vec!["hell", "hole", "ell"]);
}

#[test]
fn lone_carriage_return_stays_in_the_line() {
    let (found, _) = letters("hello", "hell\rhole\nell\r", 3);
    assert!(found.is_empty());
}

#[test]
fn huge_minimum_finds_nothing() {
    let (found, _) = letters("hello", WORDS, 1_000_000_000);
    assert!(found.is_empty());
    let (found, _) = letters("hello", WORDS, usize::MAX);
    assert!(found.is_empty());
}

#[test]
fn minimum_of_some_thousand_letters() {
    let long: String = "ab".repeat(3000);
    let list = format!("ab\n{long}\nabab\n");
    let (found, _) = letters(&long, &list, 6000);
    assert_eq!(found, vec![long.clone()]);
    let (found, _) = letters(&long, &list, 6001);
    assert!(found.is_empty());
}

#[test]
fn ties_keep_list_order() {
    let (found, _) = letters("stale", "tales\nleast\nsteal\nslate\nale\ntea\neat\n", 3);
    assert_eq!(found, vec!["tales", "least", "steal", "slate", "ale", "tea", "eat"]);
}

#[test]
fn filter_looks_at_letters_not_counts() {
    let pool = build_multiset("helo");
    let found = filter_candidates("hello\nhelp\nloll\nhe\n", &pool, 3);
    assert_eq!(found, vec!["hello", "loll"]);
}

#[test]
fn multiset_folds_case_and_drops_the_rest() {
    let m = build_multiset(" He-LLo, wOrld! 42 ");
    assert_eq!(m.count('l'), 3);
    assert_eq!(m.count('o'), 2);
    assert_eq!(m.count('h'), 1);
    assert_eq!(m.count('H'), 0);
    assert_eq!(m.count(' '), 0);
    assert_eq!(m.count('4'), 0);
    assert_eq!(m.count('z'), 0);
    assert!(!m.is_empty());
    assert_eq!(m.distinct_letters(), vec!['d', 'e', 'h', 'l', 'o', 'r', 'w']);
}

#[test]
fn multiset_of_no_letters_is_empty() {
    assert!(build_multiset("").is_empty());
    assert!(build_multiset("1234 \u{e9}\u{df} ?!").is_empty());
    assert!(build_multiset("").distinct_letters().is_empty());
}

#[test]
fn subset_compares_count_for_count() {
    let hello = build_multiset("hello");
    assert!(is_subset(&build_multiset("hell"), &hello));
    assert!(is_subset(&build_multiset("olleh"), &hello));
    assert!(is_subset(&build_multiset(""), &hello));
    assert!(!is_subset(&build_multiset("helllo"), &hello));
    assert!(!is_subset(&build_multiset("help"), &hello));
    assert!(!is_subset(&hello, &build_multiset("hell")));
}

#[test]
fn filter_agrees_with_the_rule_on_odd_lines() {
    let lines = [
        "", "a", "ab", "abc", "abcd", "aaaa", "abca", "abcx", "xabc", "ABC", "a b", " abc", "abc ",
        "a-b", "a.c", "[abc]", "^abc$", "abc{3,}", "ab\u{e9}", "\u{e9}", "a\rb", "abc\r", "\tabc", "a\0b",
        "\u{430}bc", "abc\u{301}", "cba", "bbbbbbbbbb",
    ];
    let list = lines.join("\n");
    for pool_text in ["abc", "cab", "a", "abcabc", "zyx"] {
        let pool = build_multiset(pool_text);
        for min in [0usize, 1, 2, 3, 4, 5, 10, 11] {
            let found = filter_candidates(&list, &pool, min);
            let expected: Vec<&str> = list
                .lines()
                .filter(|l| l.chars().count() >= min && l.chars().all(|c| pool.count(c) > 0))
                .collect();
            assert_eq!(found, expected, "{pool_text} at {min}");
        }
    }
}

#[test]
fn filter_with_an_empty_pool() {
    let pool = build_multiset("");
    assert_eq!(filter_candidates("a\n\nb\n", &pool, 0), vec![""]);
    assert!(filter_candidates("a\n\nb\n", &pool, 1).is_empty());
}

#[test]
fn no_minimum_admits_empty_lines_and_repeated_lines() {
    let (found, _) = letters("ab", "a\n\nab\na\n\n", 0);
    assert_eq!(found, vec!["ab", "a", "a", "", ""]);
    let (found, _) = letters("ab", "a\n\nab\na\n\n", 1);
    assert_eq!(found, vec!["ab", "a", "a"]);
}
