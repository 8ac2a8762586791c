//! What a player shares with others: the letters, the words found, the
//! word of the day.

use vstd::prelude::*;

verus! {

/// The content of one share.
#[derive(Debug, PartialEq, Eq)]
pub struct ShareableContent {
    pub original_input: String,
    pub anagrams: Vec<String>,
    pub word_of_the_day: String,
}

/// Puts the letters a player entered, the words found for them and the
/// word of the day together, each as it was given.
pub fn generate_shareable_content(input: &str, anagrams: Vec<String>, word_of_the_day: &str) -> (content:
    ShareableContent)
    ensures
        content.original_input@ == input@,
        content.anagrams == anagrams,
        content.word_of_the_day@ == word_of_the_day@,
{
    ShareableContent {
        original_input: input.to_owned(),
        anagrams,
        word_of_the_day: word_of_the_day.to_owned(),
    }
}

} // verus!
