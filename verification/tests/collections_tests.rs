use backend_odyssey::word_table::WordTable;
use backend_odyssey::{
    clear_favorite_words, generate_shareable_content, FavoriteWords, WordHistory,
};

fn list(words: &[&str]) -> Vec<String> {
    words.iter().map(|w| w.to_string()).collect()
}

#[test]
fn history_puts_the_newest_word_in_front() {
    let mut h = WordHistory::new(5, Vec::new());
    assert!(h.get_all().is_empty());
    h.add("one".to_string());
    h.add("two".to_string());
    h.add("three".to_string());
    assert_eq!(h.get_all(), vec!["three", "two", "one"]);
}

#[test]
fn history_moves_a_known_word_to_the_front() {
    let mut h = WordHistory::new(5, list(&["c", "b", "a"]));
    h.add("a".to_string());
    assert_eq!(h.get_all(), vec!["a", "c", "b"]);
    h.add("a".to_string());
    assert_eq!(h.get_all(), vec!["a", "c", "b"]);
}

#[test]
fn history_drops_the_oldest_word_beyond_its_limit() {
    let mut h = WordHistory::new(3, list(&["c", "b", "a"]));
    h.add("d".to_string());
    assert_eq!(h.get_all(), vec!["d", "c", "b"]);
    h.add("b".to_string());
    assert_eq!(h.get_all(), vec!["b", "d", "c"]);
}

#[test]
fn history_with_no_room_keeps_nothing() {
    let mut h = WordHistory::new(0, Vec::new());
    h.add("a".to_string());
    assert!(h.get_all().is_empty());
}

#[test]
fn history_takes_stored_words_as_they_are() {
    let mut h = WordHistory::new(2, list(&["a", "b", "a", "c", "d"]));
    assert_eq!(h.get_all(), vec!["a", "b", "a", "c", "d"]);
    h.add("a".to_string());
    assert_eq!(h.get_all(), vec!["a", "b", "c"]);
    h.add("e".to_string());
    assert_eq!(h.get_all(), vec!["e", "a", "b"]);
}

#[test]
fn favorites_are_listed_newest_first() {
    let mut f = FavoriteWords::new(Vec::new());
    f.add("old".to_string(), 100);
    f.add("new".to_string(), 300);
    f.add("mid".to_string(), 200);
    assert_eq!(
        f.get_all(),
        vec![("new".to_string(), 300), ("mid".to_string(), 200), ("old".to_string(), 100)]
    );
    assert!(f.contains("old"));
    assert!(!f.contains("Old"));
    assert!(!f.contains(""));
}

#[test]
fn favorite_added_again_gets_the_new_time() {
    let mut f = FavoriteWords::new(Vec::new());
    f.add("a".to_string(), 1);
    f.add("b".to_string(), 2);
    f.add("a".to_string(), 3);
    assert_eq!(f.get_all(), vec![("a".to_string(), 3), ("b".to_string(), 2)]);
}

#[test]
fn favorite_can_be_removed() {
    let mut f = FavoriteWords::new(vec![("a".to_string(), 1), ("b".to_string(), 2)]);
    f.remove("a");
    f.remove("zzz");
    assert!(!f.contains("a"));
    assert!(f.contains("b"));
    assert_eq!(f.get_all(), vec![("b".to_string(), 2)]);
}

#[test]
fn favorites_stored_twice_count_once() {
    let f = FavoriteWords::new(vec![
        ("a".to_string(), 1),
        ("b".to_string(), 5),
        ("a".to_string(), 9),
    ]);
    assert_eq!(f.get_all(), vec![("a".to_string(), 9), ("b".to_string(), 5)]);
}

#[test]
fn favorites_with_the_largest_time_stamps() {
    let mut f = FavoriteWords::new(Vec::new());
    f.add("a".to_string(), 0);
    f.add("b".to_string(), u64::MAX);
    f.add("c".to_string(), u64::MAX - 1);
    let all = f.get_all();
    assert_eq!(all[0], ("b".to_string(), u64::MAX));
    assert_eq!(all[1], ("c".to_string(), u64::MAX - 1));
    assert_eq!(all[2], ("a".to_string(), 0));
}

#[test]
fn favorites_can_be_cleared() {
    let mut f = FavoriteWords::new(vec![("a".to_string(), 1), ("b".to_string(), 2)]);
    clear_favorite_words(&mut f);
    assert!(f.get_all().is_empty());
    assert!(!f.contains("a"));
    f.add("c".to_string(), 3);
    assert_eq!(f.get_all(), vec![("c".to_string(), 3)]);
}

#[test]
fn table_holds_one_value_per_word() {
    let mut t: WordTable<u32> = WordTable::new();
    assert_eq!(t.len(), 0);
    assert_eq!(t.get("a"), None);
    t.insert("a".to_string(), 1);
    t.insert("b".to_string(), 2);
    t.insert("a".to_string(), 3);
    assert_eq!(t.len(), 2);
    assert_eq!(t.get("a"), Some(&3));
    assert_eq!(t.get("b"), Some(&2));
    assert!(t.contains("a"));
    assert!(!t.contains("c"));
    assert_eq!(t.row(0), &("b".to_string(), 2));
    assert_eq!(t.row(1), &("a".to_string(), 3));
    t.remove("b");
    assert_eq!(t.len(), 1);
    assert_eq!(t.get("b"), None);
    t.clear();
    assert_eq!(t.len(), 0);
    assert_eq!(t.get("a"), None);
}

#[test]
fn shareable_content_holds_what_it_was_given() {
    let c = generate_shareable_content("He llo", list(&["hello", "hell"]), "PUZZLE");
    assert_eq!(c.original_input, "He llo");
    assert_eq!(c.anagrams, vec!["hello", "hell"]);
    assert_eq!(c.word_of_the_day, "PUZZLE");
}
