use backend_odyssey::definition::{
    definition_url, extract_definition, extract_etymology, extract_part_of_speech,
    extract_synonym, extract_synonyms, extract_word_info,
};
use backend_odyssey::json::{collect_texts, list_field, Json};
use backend_odyssey::text::{find_first, join, matches_at, replace_all};
use backend_odyssey::{DefinitionCache, LookupStep};

fn chars(s: &str) -> Vec<char> {
    s.chars().collect()
}

fn text(s: &str) -> Json {
    Json::Text(s.to_string())
}

fn record(fields: Vec<(&str, Json)>) -> Json {
    Json::Record(fields.into_iter().map(|(k, v)| (k.to_string(), v)).collect())
}

fn entry() -> Json {
    record(vec![
        ("fl", text("noun")),
        (
            "shortdef",
            Json::List(vec![text("a shallow container"), Json::Other, text("a part of a gun")]),
        ),
        (
            "et",
            Json::List(vec![
                Json::List(vec![text("text"), text("from {et_link|pan:2|pan:2} and {et_link|pan:2|pan:2}")]),
                Json::List(vec![text("ignored")]),
            ]),
        ),
        (
            "def",
            Json::List(vec![
                record(vec![(
                    "sseq",
                    Json::List(vec![
                        Json::List(vec![
                            record(vec![(
                                "dt",
                                Json::List(vec![
                                    text("{bc}see {sx|skillet||} and {sx|second||}"),
                                    text("no mark here"),
                                    Json::List(vec![text("{sx|nested||}")]),
                                    text("{sx|wok|wok:1|}"),
                                ]),
                            )]),
                            Json::List(vec![text("sense"), record(vec![("dt", Json::List(vec![text("{sx|hidden||}")]))])]),
                        ]),
                        text("{sx|loose||}"),
                    ]),
                )]),
                record(vec![("other", Json::Other)]),
                record(vec![(
                    "sseq",
                    Json::List(vec![Json::List(vec![record(vec![(
                        "dt",
                        Json::List(vec![text("{sx|basin||}"), text("{sx|open")]),
                    )])])]),
                )]),
            ]),
        ),
    ])
}

#[test]
fn url_is_prefix_word_and_key() {
    assert_eq!(
        definition_url("pan", "SECRET"),
        "https://dictionaryapi.com/api/v3/references/collegiate/json/pan?key=SECRET"
    );
    assert_eq!(
        definition_url("", ""),
        "https://dictionaryapi.com/api/v3/references/collegiate/json/?key="
    );
    assert_eq!(
        definition_url("a b", "k&y"),
        "https://dictionaryapi.com/api/v3/references/collegiate/json/a b?key=k&y"
    );
}

#[test]
fn definition_joins_the_short_definitions() {
    assert_eq!(
        extract_definition(&entry()),
        Some("a shallow container; a part of a gun".to_string())
    );
    assert_eq!(extract_definition(&record(vec![("shortdef", Json::List(vec![]))])), None);
    assert_eq!(extract_definition(&record(vec![("shortdef", Json::List(vec![Json::Other]))])), None);
    assert_eq!(extract_definition(&record(vec![("shortdef", text("x"))])), None);
    assert_eq!(extract_definition(&record(vec![])), None);
    assert_eq!(extract_definition(&Json::List(vec![text("x")])), None);
    assert_eq!(
        extract_definition(&record(vec![("shortdef", Json::List(vec![text("one")]))])),
        Some("one".to_string())
    );
}

#[test]
fn etymology_is_the_first_item_with_the_link_written_out() {
    assert_eq!(extract_etymology(&entry()), Some("text from pan and pan".to_string()));
    assert_eq!(extract_etymology(&record(vec![("et", Json::List(vec![]))])), None);
    assert_eq!(extract_etymology(&record(vec![("et", Json::List(vec![text("not a list")]))])), None);
    assert_eq!(
        extract_etymology(&record(vec![("et", Json::List(vec![Json::List(vec![Json::Other])]))])),
        None
    );
    assert_eq!(
        extract_etymology(&record(vec![("et", Json::List(vec![Json::List(vec![text("")])]))])),
        None
    );
    assert_eq!(extract_etymology(&record(vec![])), None);
}

#[test]
fn synonyms_come_from_the_defining_texts() {
    assert_eq!(
        extract_synonyms(&entry()),
        Some(vec!["skillet".to_string(), "wok".to_string(), "basin".to_string()])
    );
    assert_eq!(extract_synonyms(&record(vec![("def", Json::List(vec![]))])), None);
    assert_eq!(extract_synonyms(&record(vec![("def", Json::Other)])), None);
    assert_eq!(extract_synonyms(&record(vec![])), None);
}

#[test]
fn synonym_stands_between_mark_and_bar() {
    assert_eq!(extract_synonym(&chars("{sx|skillet||}")), Some(chars("skillet")));
    assert_eq!(extract_synonym(&chars("see {sx|a|b|} {sx|c||}")), Some(chars("a")));
    assert_eq!(extract_synonym(&chars("{sx||}")), Some(chars("")));
    assert_eq!(extract_synonym(&chars("{sx|open")), None);
    assert_eq!(extract_synonym(&chars("{sx|")), None);
    assert_eq!(extract_synonym(&chars("no mark | here")), None);
    assert_eq!(extract_synonym(&chars("")), None);
    assert_eq!(extract_synonym(&chars("{sx|\u{e9}t\u{e9}|")), Some(chars("\u{e9}t\u{e9}")));
}

#[test]
fn part_of_speech_is_the_field_fl() {
    assert_eq!(extract_part_of_speech(&entry()), Some("noun".to_string()));
    assert_eq!(extract_part_of_speech(&record(vec![("fl", Json::Other)])), None);
    assert_eq!(extract_part_of_speech(&record(vec![])), None);
    assert_eq!(extract_part_of_speech(&text("noun")), None);
}

#[test]
fn word_info_of_an_entry() {
    let info = extract_word_info(&entry());
    assert_eq!(info.definition, Some("a shallow container; a part of a gun".to_string()));
    assert_eq!(info.etymology, Some("text from pan and pan".to_string()));
    assert_eq!(info.synonyms, Some(vec!["skillet".to_string(), "wok".to_string(), "basin".to_string()]));
    assert_eq!(info.part_of_speech, Some("noun".to_string()));
    let info = extract_word_info(&Json::Other);
    assert_eq!(info.definition, None);
    assert_eq!(info.etymology, None);
    assert_eq!(info.synonyms, None);
    assert_eq!(info.part_of_speech, None);
}

#[test]
fn lookup_asks_once_and_then_knows() {
    let mut cache = DefinitionCache::new();
    match cache.begin_lookup("pan", "KEY") {
        LookupStep::Ask(url) => assert_eq!(
            url,
            "https://dictionaryapi.com/api/v3/references/collegiate/json/pan?key=KEY"
        ),
        LookupStep::Known(_) => panic!("nothing was looked up yet"),
    }
    assert!(cache.finish_lookup("nothing", &Vec::new()).is_none());
    match cache.begin_lookup("nothing", "KEY") {
        LookupStep::Ask(_) => {}
        LookupStep::Known(_) => panic!("no entry came"),
    }
    let found = cache.finish_lookup("pan", &vec![entry(), Json::Other]).unwrap();
    assert_eq!(found.part_of_speech, Some("noun".to_string()));
    match cache.begin_lookup("pan", "KEY") {
        LookupStep::Known(info) => {
            assert_eq!(info.definition, Some("a shallow container; a part of a gun".to_string()))
        }
        LookupStep::Ask(_) => panic!("the word was looked up before"),
    }
    match cache.begin_lookup("Pan", "KEY") {
        LookupStep::Ask(_) => {}
        LookupStep::Known(_) => panic!("another word"),
    }
}

#[test]
fn record_field_is_found_by_name() {
    let r = record(vec![("a", text("1")), ("b", text("2")), ("a", text("3"))]);
    assert!(matches!(r.get("a"), Some(Json::Text(t)) if t == "1"));
    assert!(matches!(r.get("b"), Some(Json::Text(t)) if t == "2"));
    assert!(r.get("c").is_none());
    assert!(r.get("").is_none());
    assert!(Json::List(vec![text("a")]).get("a").is_none());
    assert!(text("a").get("a").is_none());
    assert!(Json::Other.get("a").is_none());
}

#[test]
fn json_values_tell_their_kind() {
    assert_eq!(text("x").as_text(), Some(&"x".to_string()));
    assert!(text("x").as_list().is_none());
    assert_eq!(Json::List(vec![Json::Other]).as_list().map(|l| l.len()), Some(1));
    assert!(Json::List(vec![]).as_text().is_none());
    assert!(Json::Other.as_text().is_none());
    assert!(Json::Other.as_list().is_none());
    let r = record(vec![("k", Json::List(vec![text("a"), Json::Other, text("b")]))]);
    let l = list_field(&r, "k").unwrap();
    assert_eq!(collect_texts(l), vec![chars("a"), chars("b")]);
    assert!(list_field(&r, "x").is_none());
    assert!(list_field(&record(vec![("k", text("a"))]), "k").is_none());
}

#[test]
fn pattern_is_found_from_a_position_on() {
    let t = chars("abcabcab");
    assert_eq!(find_first(&t, &chars("abc"), 0), Some(0));
    assert_eq!(find_first(&t, &chars("abc"), 1), Some(3));
    assert_eq!(find_first(&t, &chars("abc"), 4), None);
    assert_eq!(find_first(&t, &chars("ab"), 4), Some(6));
    assert_eq!(find_first(&t, &chars("x"), 0), None);
    assert_eq!(find_first(&t, &chars(""), 8), Some(8));
    assert_eq!(find_first(&t, &chars(""), 9), None);
    assert_eq!(find_first(&t, &chars("abcabcabc"), 0), None);
    assert_eq!(find_first(&chars(""), &chars("a"), 0), None);
    assert!(matches_at(&t, &chars("cab"), 2));
    assert!(!matches_at(&t, &chars("cab"), 3));
    assert!(!matches_at(&t, &chars("ab"), 7));
    assert!(matches_at(&t, &chars(""), 8));
    assert!(!matches_at(&t, &chars(""), 9));
    assert!(!matches_at(&t, &chars("a"), usize::MAX));
}

#[test]
fn every_occurrence_is_replaced_from_the_left() {
    assert_eq!(replace_all(&chars("aaa"), &chars("aa"), &chars("b")), chars("ba"));
    assert_eq!(replace_all(&chars("a-b-c"), &chars("-"), &chars("--")), chars("a--b--c"));
    assert_eq!(replace_all(&chars("abc"), &chars("x"), &chars("y")), chars("abc"));
    assert_eq!(replace_all(&chars("abc"), &chars(""), &chars("y")), chars("abc"));
    assert_eq!(replace_all(&chars(""), &chars("a"), &chars("b")), chars(""));
    assert_eq!(replace_all(&chars("abab"), &chars("ab"), &chars("")), chars(""));
    assert_eq!(
        replace_all(&chars("from {et_link|pan:2|pan:2}."), &chars("{et_link|pan:2|pan:2}"), &chars("pan")),
        chars("from pan.")
    );
}

#[test]
fn parts_are_joined_with_the_separator_between() {
    assert_eq!(join(&vec![chars("a"), chars("b"), chars("c")], &chars("; ")), chars("a; b; c"));
    assert_eq!(join(&vec![chars("a")], &chars("; ")), chars("a"));
    assert_eq!(join(&Vec::new(), &chars("; ")), chars(""));
    assert_eq!(join(&vec![chars(""), chars("")], &chars("-")), chars("-"));
    assert_eq!(join(&vec![chars("a"), chars("b")], &chars("")), chars("ab"));
}
