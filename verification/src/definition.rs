//! Dictionary entries: where to ask for one, and what to read out of the
//! answer.

use vstd::prelude::*;
use vstd::string::StringExecFns;
use crate::chars::{chars_of, string_of};
use crate::json::{collect_texts, field, items, list_field, text_of, texts_in, Json};
use crate::text::{
    find_first, find_from, join, joined, lemma_found_in_range, replace_all, replaced,
};
use crate::word_table::WordTable;

verus! {

/// What a dictionary says of a word.
#[derive(Debug, PartialEq, Eq)]
pub struct WordInfo {
    pub definition: Option<String>,
    pub etymology: Option<String>,
    pub synonyms: Option<Vec<String>>,
    pub part_of_speech: Option<String>,
}

/// The address at which the entry of `word` is asked for with the key
/// `api_key`. Neither is escaped.
pub open spec fn definition_url_of(word: Seq<char>, api_key: Seq<char>) -> Seq<char> {
    "https://dictionaryapi.com/api/v3/references/collegiate/json/"@ + word + "?key="@ + api_key
}

/// Writes the address at which the entry of `word` is asked for.
pub fn definition_url(word: &str, api_key: &str) -> (url: String)
    ensures
        url@ == definition_url_of(word@, api_key@),
{
    let mut url = "https://dictionaryapi.com/api/v3/references/collegiate/json/".to_owned();
    url.append(word);
    url.append("?key=");
    url.append(api_key);
    url
}

/// The mark that stands before a synonym in a defining text.
pub open spec fn synonym_mark() -> Seq<char> {
    seq!['{', 's', 'x', '|']
}

/// The bar that ends a synonym.
pub open spec fn bar() -> Seq<char> {
    seq!['|']
}

/// The synonym that a defining text names: what stands between the
/// first synonym mark and the next bar. A text without the mark names
/// none, and neither does one in which no bar follows the mark.
pub open spec fn synonym_in(text: Seq<char>) -> Option<Seq<char>> {
    match find_from(text, synonym_mark(), 0) {
        None => None,
        Some(at) => match find_from(text, bar(), at + 4) {
            None => None,
            Some(end) => Some(text.subrange(at + 4, end)),
        },
    }
}

/// The synonyms that the texts among `parts` name, in order.
pub open spec fn synonyms_in_texts(parts: Seq<Json>) -> Seq<Seq<char>>
    decreases parts.len(),
{
    if parts.len() == 0 {
        Seq::empty()
    } else {
        synonyms_in_texts(parts.drop_last()) + match text_of(Some(parts.last())) {
            Some(text) => match synonym_in(text) {
                Some(synonym) => seq![synonym],
                None => Seq::empty(),
            },
            None => Seq::empty(),
        }
    }
}

/// The synonyms named in the defining texts, the field `dt`, of each of
/// `senses`.
pub open spec fn synonyms_in_senses(senses: Seq<Json>) -> Seq<Seq<char>>
    decreases senses.len(),
{
    if senses.len() == 0 {
        Seq::empty()
    } else {
        synonyms_in_senses(senses.drop_last()) + match items(field(senses.last(), "dt"@)) {
            Some(parts) => synonyms_in_texts(parts),
            None => Seq::empty(),
        }
    }
}

/// The synonyms named in each of `sequences` that is a list of senses.
pub open spec fn synonyms_in_sequences(sequences: Seq<Json>) -> Seq<Seq<char>>
    decreases sequences.len(),
{
    if sequences.len() == 0 {
        Seq::empty()
    } else {
        synonyms_in_sequences(sequences.drop_last()) + match items(Some(sequences.last())) {
            Some(senses) => synonyms_in_senses(senses),
            None => Seq::empty(),
        }
    }
}

/// The synonyms named in the sense sequences, the field `sseq`, of each
/// of `sections`.
pub open spec fn synonyms_in_sections(sections: Seq<Json>) -> Seq<Seq<char>>
    decreases sections.len(),
{
    if sections.len() == 0 {
        Seq::empty()
    } else {
        synonyms_in_sections(sections.drop_last()) + match items(field(sections.last(), "sseq"@)) {
            Some(sequences) => synonyms_in_sequences(sequences),
            None => Seq::empty(),
        }
    }
}

/// The definition of an entry: the texts of its field `shortdef` joined
/// by `; `. There is none where the field is no list or holds no text.
pub open spec fn definition_of(entry: Json) -> Option<Seq<char>> {
    match items(field(entry, "shortdef"@)) {
        Some(list) => if texts_in(list).len() > 0 {
            Some(joined(texts_in(list), "; "@))
        } else {
            None
        },
        None => None,
    }
}

/// The words of the first item of the field `et`, joined by blanks.
pub open spec fn etymology_words(entry: Json) -> Seq<char> {
    match items(field(entry, "et"@)) {
        Some(list) => if list.len() > 0 {
            match items(Some(list[0])) {
                Some(words) => joined(texts_in(words), " "@),
                None => Seq::empty(),
            }
        } else {
            Seq::empty()
        },
        None => Seq::empty(),
    }
}

/// The etymology of an entry: the words of the first item of its field
/// `et`, with the link to `pan` written out. There is none where the words
/// come to nothing.
pub open spec fn etymology_of(entry: Json) -> Option<Seq<char>> {
    if etymology_words(entry).len() > 0 {
        Some(replaced(etymology_words(entry), "{et_link|pan:2|pan:2}"@, "pan"@))
    } else {
        None
    }
}

/// The synonyms of an entry that its field `def` names; none where it
/// names none.
pub open spec fn synonyms_of(entry: Json) -> Option<Seq<Seq<char>>> {
    match items(field(entry, "def"@)) {
        Some(sections) => if synonyms_in_sections(sections).len() > 0 {
            Some(synonyms_in_sections(sections))
        } else {
            None
        },
        None => None,
    }
}

/// The part of speech of an entry: its field `fl`, where that is a text.
pub open spec fn part_of_speech_of(entry: Json) -> Option<Seq<char>> {
    text_of(field(entry, "fl"@))
}

/// The characters of a text that may be missing.
pub open spec fn text_view(text: Option<String>) -> Option<Seq<char>> {
    match text {
        Some(t) => Some(t@),
        None => None,
    }
}

/// The characters of the texts of a list that may be missing.
pub open spec fn texts_view(texts: Option<Vec<String>>) -> Option<Seq<Seq<char>>> {
    match texts {
        Some(list) => Some(list.deep_view()),
        None => None,
    }
}

/// Whether `info` holds what `entry` says.
pub open spec fn is_info_of(info: WordInfo, entry: Json) -> bool {
    &&& text_view(info.definition) == definition_of(entry)
    &&& text_view(info.etymology) == etymology_of(entry)
    &&& texts_view(info.synonyms) == synonyms_of(entry)
    &&& text_view(info.part_of_speech) == part_of_speech_of(entry)
}

/// Reads the synonym that a defining text names.
pub fn extract_synonym(text: &Vec<char>) -> (synonym: Option<Vec<char>>)
    ensures
        match synonym {
            Some(s) => synonym_in(text@) == Some(s@),
            None => synonym_in(text@) is None,
        },
{
    let mut mark: Vec<char> = Vec::new();
    mark.push('{');
    mark.push('s');
    mark.push('x');
    mark.push('|');
    let mut stop: Vec<char> = Vec::new();
    stop.push('|');
    proof {
        assert(mark@ =~= synonym_mark());
        assert(stop@ =~= bar());
    }
    match find_first(text, &mark, 0) {
        None => None,
        Some(at) => {
            proof {
                lemma_found_in_range(text@, synonym_mark(), 0, at as int);
                assert(synonym_mark().len() == 4);
                assert(at + 4 <= text.len());
            }
            match find_first(text, &stop, at + 4) {
                None => None,
                Some(end) => {
                    proof {
                        lemma_found_in_range(text@, bar(), at + 4, end as int);
                    }
                    let mut out: Vec<char> = Vec::new();
                    let mut i: usize = at + 4;
                    while i < end
                        invariant
                            at + 4 <= i <= end <= text.len(),
                            out@ == text@.subrange(at + 4, i as int),
                        decreases end - i,
                    {
                        out.push(text[i]);
                        proof {
                            assert(out@ =~= text@.subrange(at + 4, i + 1));
                        }
                        i += 1;
                    }
                    Some(out)
                },
            }
        },
    }
}

/// Adds the synonyms that the texts among `parts` name to `out`.
fn gather_from_texts(parts: &Vec<Json>, out: &mut Vec<String>)
    ensures
        final(out).deep_view() == old(out).deep_view() + synonyms_in_texts(parts@),
{
    let mut i: usize = 0;
    proof {
        assert(parts@.take(0) =~= Seq::<Json>::empty());
        assert(out.deep_view() =~= old(out).deep_view() + Seq::<Seq<char>>::empty());
    }
    while i < parts.len()
        invariant
            i <= parts.len(),
            out.deep_view() == old(out).deep_view() + synonyms_in_texts(parts@.take(i as int)),
        decreases parts.len() - i,
    {
        proof {
            assert(parts@.take(i + 1).drop_last() =~= parts@.take(i as int));
            assert(parts@.take(i + 1).last() == parts@[i as int]);
        }
        let ghost before = out.deep_view();
        if let Some(text) = parts[i].as_text() {
            let chars = chars_of(text.as_str());
            if let Some(synonym) = extract_synonym(&chars) {
                out.push(string_of(&synonym));
                proof {
                    assert(out.deep_view() =~= before.push(synonym@));
                }
            }
        }
        proof {
            let step = synonyms_in_texts(parts@.take(i + 1));
            assert(out.deep_view() =~= old(out).deep_view() + step);
        }
        i += 1;
    }
    proof {
        assert(parts@.take(i as int) =~= parts@);
    }
}

/// Adds the synonyms named in the defining texts of each of `senses` to
/// `out`.
fn gather_from_senses(senses: &Vec<Json>, out: &mut Vec<String>)
    ensures
        final(out).deep_view() == old(out).deep_view() + synonyms_in_senses(senses@),
{
    let mut i: usize = 0;
    proof {
        assert(senses@.take(0) =~= Seq::<Json>::empty());
        assert(out.deep_view() =~= old(out).deep_view() + Seq::<Seq<char>>::empty());
    }
    while i < senses.len()
        invariant
            i <= senses.len(),
            out.deep_view() == old(out).deep_view() + synonyms_in_senses(senses@.take(i as int)),
        decreases senses.len() - i,
    {
        proof {
            assert(senses@.take(i + 1).drop_last() =~= senses@.take(i as int));
            assert(senses@.take(i + 1).last() == senses@[i as int]);
        }
        let ghost before = out.deep_view();
        if let Some(parts) = list_field(&senses[i], "dt") {
            gather_from_texts(parts, out);
        }
        proof {
            let step = synonyms_in_senses(senses@.take(i + 1));
            assert(out.deep_view() =~= old(out).deep_view() + step);
        }
        i += 1;
    }
    proof {
        assert(senses@.take(i as int) =~= senses@);
    }
}

/// Adds the synonyms named in each of `sequences` that is a list of
/// senses to `out`.
fn gather_from_sequences(sequences: &Vec<Json>, out: &mut Vec<String>)
    ensures
        final(out).deep_view() == old(out).deep_view() + synonyms_in_sequences(sequences@),
{
    let mut i: usize = 0;
    proof {
        assert(sequences@.take(0) =~= Seq::<Json>::empty());
        assert(out.deep_view() =~= old(out).deep_view() + Seq::<Seq<char>>::empty());
    }
    while i < sequences.len()
        invariant
            i <= sequences.len(),
            out.deep_view() == old(out).deep_view() + synonyms_in_sequences(
                sequences@.take(i as int),
            ),
        decreases sequences.len() - i,
    {
        proof {
            assert(sequences@.take(i + 1).drop_last() =~= sequences@.take(i as int));
            assert(sequences@.take(i + 1).last() == sequences@[i as int]);
        }
        if let Some(senses) = sequences[i].as_list() {
            gather_from_senses(senses, out);
        }
        proof {
            let step = synonyms_in_sequences(sequences@.take(i + 1));
            assert(out.deep_view() =~= old(out).deep_view() + step);
        }
        i += 1;
    }
    proof {
        assert(sequences@.take(i as int) =~= sequences@);
    }
}

/// Adds the synonyms named in the sense sequences of each of `sections`
/// to `out`.
fn gather_from_sections(sections: &Vec<Json>, out: &mut Vec<String>)
    ensures
        final(out).deep_view() == old(out).deep_view() + synonyms_in_sections(sections@),
{
    let mut i: usize = 0;
    proof {
        assert(sections@.take(0) =~= Seq::<Json>::empty());
        assert(out.deep_view() =~= old(out).deep_view() + Seq::<Seq<char>>::empty());
    }
    while i < sections.len()
        invariant
            i <= sections.len(),
            out.deep_view() == old(out).deep_view() + synonyms_in_sections(
                sections@.take(i as int),
            ),
        decreases sections.len() - i,
    {
        proof {
            assert(sections@.take(i + 1).drop_last() =~= sections@.take(i as int));
            assert(sections@.take(i + 1).last() == sections@[i as int]);
        }
        if let Some(sequences) = list_field(&sections[i], "sseq") {
            gather_from_sequences(sequences, out);
        }
        proof {
            let step = synonyms_in_sections(sections@.take(i + 1));
            assert(out.deep_view() =~= old(out).deep_view() + step);
        }
        i += 1;
    }
    proof {
        assert(sections@.take(i as int) =~= sections@);
    }
}

/// Reads the definition of an entry.
pub fn extract_definition(entry: &Json) -> (definition: Option<String>)
    ensures
        text_view(definition) == definition_of(*entry),
{
    match list_field(entry, "shortdef") {
        Some(list) => {
            let texts = collect_texts(list);
            if texts.len() > 0 {
                let separator = chars_of("; ");
                Some(string_of(&join(&texts, &separator)))
            } else {
                None
            }
        },
        None => None,
    }
}

/// Reads the etymology of an entry.
pub fn extract_etymology(entry: &Json) -> (etymology: Option<String>)
    ensures
        text_view(etymology) == etymology_of(*entry),
{
    let words: Vec<char> = match list_field(entry, "et") {
        Some(list) => {
            if list.len() > 0 {
                match list[0].as_list() {
                    Some(inner) => {
                        let texts = collect_texts(inner);
                        let blank = chars_of(" ");
                        join(&texts, &blank)
                    },
                    None => Vec::new(),
                }
            } else {
                Vec::new()
            }
        },
        None => Vec::new(),
    };
    if words.len() > 0 {
        let link = chars_of("{et_link|pan:2|pan:2}");
        let plain = chars_of("pan");
        Some(string_of(&replace_all(&words, &link, &plain)))
    } else {
        None
    }
}

/// Reads the synonyms of an entry.
pub fn extract_synonyms(entry: &Json) -> (synonyms: Option<Vec<String>>)
    ensures
        texts_view(synonyms) == synonyms_of(*entry),
{
    match list_field(entry, "def") {
        Some(sections) => {
            let mut found: Vec<String> = Vec::new();
            proof {
                assert(found.deep_view() =~= Seq::<Seq<char>>::empty());
            }
            gather_from_sections(sections, &mut found);
            proof {
                assert(Seq::<Seq<char>>::empty() + synonyms_in_sections(sections@)
                    =~= synonyms_in_sections(sections@));
            }
            if found.len() > 0 {
                Some(found)
            } else {
                None
            }
        },
        None => None,
    }
}

/// Reads the part of speech of an entry.
pub fn extract_part_of_speech(entry: &Json) -> (part: Option<String>)
    ensures
        text_view(part) == part_of_speech_of(*entry),
{
    match entry.get("fl") {
        Some(value) => match value.as_text() {
            Some(text) => Some(text.clone()),
            None => None,
        },
        None => None,
    }
}

/// Reads out of a dictionary entry what it says of its word: the
/// definition, the etymology, the synonyms and the part of speech, each
/// where the entry holds it.
pub fn extract_word_info(entry: &Json) -> (info: WordInfo)
    ensures
        is_info_of(info, *entry),
{
    WordInfo {
        definition: extract_definition(entry),
        etymology: extract_etymology(entry),
        synonyms: extract_synonyms(entry),
        part_of_speech: extract_part_of_speech(entry),
    }
}

/// What is known of the words that were looked up before.
pub struct DefinitionCache {
    known: WordTable<WordInfo>,
}

impl View for DefinitionCache {
    type V = Map<Seq<char>, WordInfo>;

    /// The information held for each word.
    closed spec fn view(&self) -> Map<Seq<char>, WordInfo> {
        self.known@
    }
}

/// What to do next for a word that is looked up.
pub enum LookupStep<'a> {
    /// The word was looked up before: this is what was found.
    Known(&'a WordInfo),
    /// The dictionary has to be asked, at this address.
    Ask(String),
}

impl DefinitionCache {
    /// Whether the cache is in order inside.
    pub closed spec fn wf(&self) -> bool {
        self.known.wf()
    }

    /// A cache that knows no word.
    pub fn new() -> (cache: DefinitionCache)
        ensures
            cache.wf(),
            cache@ == Map::<Seq<char>, WordInfo>::empty(),
    {
        DefinitionCache { known: WordTable::new() }
    }

    /// Starts the lookup of `word`: what the cache holds for it, or the
    /// address at which to ask the dictionary with the key `api_key`.
    pub fn begin_lookup<'a>(&'a self, word: &str, api_key: &str) -> (step: LookupStep<'a>)
        requires
            self.wf(),
        ensures
            match step {
                LookupStep::Known(info) => self@.contains_pair(word@, *info),
                LookupStep::Ask(url) => !self@.contains_key(word@) && url@ == definition_url_of(
                    word@,
                    api_key@,
                ),
            },
    {
        match self.known.get(word) {
            Some(info) => LookupStep::Known(info),
            None => LookupStep::Ask(definition_url(word, api_key)),
        }
    }

    /// Ends the lookup of `word` with the entries that the dictionary
    /// sent. The first entry counts: what it says is kept for the word and
    /// handed out. Without an entry nothing is kept and nothing handed
    /// out.
    pub fn finish_lookup(&mut self, word: &str, entries: &Vec<Json>) -> (found: Option<&WordInfo>)
        requires
            old(self).wf(),
        ensures
            final(self).wf(),
            match found {
                Some(info) => entries@.len() > 0 && is_info_of(*info, entries@[0]) && final(self)@
                    == old(self)@.insert(word@, *info),
                None => entries@.len() == 0 && final(self)@ == old(self)@,
            },
    {
        if entries.len() == 0 {
            return None;
        }
        let info = extract_word_info(&entries[0]);
        self.known.insert(word.to_owned(), info);
        self.known.get(word)
    }
}

} // verus!
