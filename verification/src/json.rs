//! The part of a JSON document that a dictionary answer is read from.

use vstd::prelude::*;
use crate::chars::chars_of;

verus! {

/// A JSON value: a text, a list, a record of named fields, or anything
/// else. Numbers, truth values and `null` are not told apart.
#[derive(Debug)]
pub enum Json {
    Text(String),
    List(Vec<Json>),
    Record(Vec<(String, Json)>),
    Other,
}

/// The value of the first of `fields` that is named `key`.
pub open spec fn find_field(fields: Seq<(String, Json)>, key: Seq<char>) -> Option<Json>
    decreases fields.len(),
{
    if fields.len() == 0 {
        None
    } else if fields[0].0@ == key {
        Some(fields[0].1)
    } else {
        find_field(fields.skip(1), key)
    }
}

/// The field `key` of a record; nothing for any other value.
pub open spec fn field(value: Json, key: Seq<char>) -> Option<Json> {
    match value {
        Json::Record(fields) => find_field(fields@, key),
        _ => None,
    }
}

/// The items of a value that is a list.
pub open spec fn items(value: Option<Json>) -> Option<Seq<Json>> {
    match value {
        Some(Json::List(list)) => Some(list@),
        _ => None,
    }
}

/// The characters of a value that is a text.
pub open spec fn text_of(value: Option<Json>) -> Option<Seq<char>> {
    match value {
        Some(Json::Text(text)) => Some(text@),
        _ => None,
    }
}

/// The texts among the items of a list, in order; other items are
/// passed over.
pub open spec fn texts_in(list: Seq<Json>) -> Seq<Seq<char>>
    decreases list.len(),
{
    if list.len() == 0 {
        Seq::empty()
    } else {
        match list.last() {
            Json::Text(text) => texts_in(list.drop_last()).push(text@),
            _ => texts_in(list.drop_last()),
        }
    }
}

impl Json {
    /// The field `key` of a record.
    pub fn get(&self, key: &str) -> (found: Option<&Json>)
        ensures
            match found {
                Some(value) => field(*self, key@) == Some(*value),
                None => field(*self, key@) is None,
            },
    {
        match self {
            Json::Record(fields) => {
                let name = key.to_owned();
                let mut i: usize = 0;
                proof {
                    assert(fields@.skip(0) =~= fields@);
                }
                while i < fields.len()
                    invariant
                        i <= fields.len(),
                        name@ == key@,
                        field(*self, key@) == find_field(fields@, key@),
                        find_field(fields@, key@) == find_field(fields@.skip(i as int), key@),
                    decreases fields.len() - i,
                {
                    proof {
                        assert(fields@.skip(i as int)[0] == fields@[i as int]);
                        assert(fields@.skip(i as int).skip(1) =~= fields@.skip(i + 1));
                    }
                    if fields[i].0 == name {
                        return Some(&fields[i].1);
                    }
                    i += 1;
                }
                None
            },
            _ => None,
        }
    }

    /// The items, where the value is a list.
    pub fn as_list(&self) -> (list: Option<&Vec<Json>>)
        ensures
            match list {
                Some(l) => items(Some(*self)) == Some(l@),
                None => items(Some(*self)) is None,
            },
    {
        match self {
            Json::List(list) => Some(list),
            _ => None,
        }
    }

    /// The characters, where the value is a text.
    pub fn as_text(&self) -> (text: Option<&String>)
        ensures
            match text {
                Some(t) => text_of(Some(*self)) == Some(t@),
                None => text_of(Some(*self)) is None,
            },
    {
        match self {
            Json::Text(text) => Some(text),
            _ => None,
        }
    }
}

/// The list in the field `key` of `value`, where there is one.
pub fn list_field<'a>(value: &'a Json, key: &str) -> (list: Option<&'a Vec<Json>>)
    ensures
        match list {
            Some(l) => items(field(*value, key@)) == Some(l@),
            None => items(field(*value, key@)) is None,
        },
{
    match value.get(key) {
        Some(inner) => inner.as_list(),
        None => None,
    }
}

/// The texts among the items of `list`.
pub fn collect_texts(list: &Vec<Json>) -> (texts: Vec<Vec<char>>)
    ensures
        texts.deep_view() == texts_in(list@),
{
    let mut texts: Vec<Vec<char>> = Vec::new();
    let mut i: usize = 0;
    proof {
        assert(list@.take(0) =~= Seq::<Json>::empty());
        assert(texts.deep_view() =~= Seq::<Seq<char>>::empty());
    }
    while i < list.len()
        invariant
            i <= list.len(),
            texts.deep_view() == texts_in(list@.take(i as int)),
        decreases list.len() - i,
    {
        proof {
            assert(list@.take(i + 1).drop_last() =~= list@.take(i as int));
            assert(list@.take(i + 1).last() == list@[i as int]);
        }
        if let Json::Text(text) = &list[i] {
            let ghost before = texts.deep_view();
            let chars = chars_of(text.as_str());
            texts.push(chars);
            proof {
                assert(texts.deep_view() =~~= before.push(text@));
            }
        }
        i += 1;
    }
    proof {
        assert(list@.take(i as int) =~= list@);
    }
    texts
}

} // verus!
