//! A word-game engine: finds the words that can be laid out with a pool of
//! letters, scores them and puts them in order.

pub mod chars;
pub mod definition;
pub mod distinct;
pub mod favorite_words;
pub mod json;
pub mod letter_multiset;
pub mod letters;
pub mod lines;
pub mod lookup;
pub mod pattern;
pub mod ranking;
pub mod scoring;
pub mod sharable;
pub mod sorting;
pub mod stats;
pub mod text;
pub mod word_history;
pub mod word_of_day;
pub mod word_table;
pub mod words;

pub use letter_multiset::{build_multiset, is_subset, LetterMultiset};
pub use letters::{filter_candidates, letters};
pub use scoring::{calculate_difficulty, calculate_scrabble_score};
pub use stats::{has_repeated_letters, is_palindrome, word_stats, WordStats};
pub use ranking::{sort_anagrams, SortCriteria};
pub use lookup::is_valid_word;
pub use word_of_day::{get_word_of_the_day, select_random_word};
pub use sharable::{generate_shareable_content, ShareableContent};
pub use word_history::WordHistory;
pub use favorite_words::{clear_favorite_words, FavoriteWords};
pub use definition::{DefinitionCache, LookupStep, WordInfo};
