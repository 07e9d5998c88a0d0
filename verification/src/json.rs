//! JSON values as the request carries them: configuration tables and editor
//! settings.
use vstd::prelude::*;

verus! {

/// A JSON value. A number keeps its JSON text; an object keeps its entries in
/// order, each key once.
#[derive(Debug)]
pub enum Json {
    Null,
    Bool(bool),
    Number(String),
    Text(String),
    Array(Vec<Json>),
    Object(Vec<(String, Json)>),
}

/// The mathematical value of a [`Json`].
pub enum JsonModel {
    Null,
    Bool(bool),
    Number(Seq<char>),
    Text(Seq<char>),
    Array(Seq<JsonModel>),
    Object(Seq<(Seq<char>, JsonModel)>),
}

impl Json {
    pub open spec fn models(items: Seq<Json>) -> Seq<JsonModel>
        decreases items,
    {
        if items.len() == 0 {
            Seq::empty()
        } else {
            Self::models(items.drop_last()).push(items.last().model())
        }
    }

    pub open spec fn entry_models(entries: Seq<(String, Json)>) -> Seq<(Seq<char>, JsonModel)>
        decreases entries,
    {
        if entries.len() == 0 {
            Seq::empty()
        } else {
            Self::entry_models(entries.drop_last()).push(
                (entries.last().0@, entries.last().1.model()),
            )
        }
    }

    pub open spec fn model(&self) -> JsonModel
        decreases self,
    {
        match self {
            Json::Null => JsonModel::Null,
            Json::Bool(b) => JsonModel::Bool(*b),
            Json::Number(text) => JsonModel::Number(text@),
            Json::Text(text) => JsonModel::Text(text@),
            Json::Array(items) => JsonModel::Array(Self::models(items@)),
            Json::Object(entries) => JsonModel::Object(Self::entry_models(entries@)),
        }
    }
}

impl View for Json {
    type V = JsonModel;

    open spec fn view(&self) -> JsonModel {
        self.model()
    }
}

/// The value of the first entry named `key`.
pub open spec fn lookup(entries: Seq<(Seq<char>, JsonModel)>, key: Seq<char>) -> Option<JsonModel>
    decreases entries.len(),
{
    if entries.len() == 0 {
        None
    } else if entries[0].0 == key {
        Some(entries[0].1)
    } else {
        lookup(entries.drop_first(), key)
    }
}

/// `serde_json::Value::get` with a key: the member of an object, nothing for
/// any other value.
pub open spec fn member(value: JsonModel, key: Seq<char>) -> Option<JsonModel> {
    match value {
        JsonModel::Object(entries) => lookup(entries, key),
        _ => None,
    }
}

/// Whether two texts are equal.
pub fn same_text(a: &str, b: &str) -> (r: bool)
    ensures
        r == (a@ == b@),
{
    String::from_str(a) == String::from_str(b)
}

proof fn lemma_entry_models_len(entries: Seq<(String, Json)>)
    ensures
        Json::entry_models(entries).len() == entries.len(),
    decreases entries.len(),
{
    if entries.len() > 0 {
        lemma_entry_models_len(entries.drop_last());
    }
}

proof fn lemma_entry_models_index(entries: Seq<(String, Json)>, i: int)
    requires
        0 <= i < entries.len(),
    ensures
        Json::entry_models(entries)[i] == (entries[i].0@, entries[i].1@),
    decreases entries.len(),
{
    lemma_entry_models_len(entries.drop_last());
    if i < entries.len() - 1 {
        lemma_entry_models_index(entries.drop_last(), i);
    }
}

/// The value of the first entry named `key`.
pub fn find<'a>(entries: &'a Vec<(String, Json)>, key: &str) -> (r: Option<&'a Json>)
    ensures
        match r {
            Some(v) => lookup(Json::entry_models(entries@), key@) == Some(v@),
            None => lookup(Json::entry_models(entries@), key@) is None,
        },
{
    let ghost all = Json::entry_models(entries@);
    proof {
        lemma_entry_models_len(entries@);
    }
    let mut i: usize = 0;
    assert(all.skip(0) =~= all);
    while i < entries.len()
        invariant
            i <= entries@.len() == all.len(),
            all == Json::entry_models(entries@),
            lookup(all, key@) == lookup(all.skip(i as int), key@),
        decreases entries@.len() - i,
    {
        proof {
            lemma_entry_models_index(entries@, i as int);
        }
        let ghost rest = all.skip(i as int);
        assert(rest[0] == all[i as int]);
        if same_text(entries[i].0.as_str(), key) {
            return Some(&entries[i].1);
        }
        assert(rest.drop_first() =~= all.skip(i + 1));
        i = i + 1;
    }
    None
}

/// `serde_json::Value::get` with a key.
pub fn get<'a>(value: &'a Json, key: &str) -> (r: Option<&'a Json>)
    ensures
        match r {
            Some(v) => member(value@, key@) == Some(v@),
            None => member(value@, key@) is None,
        },
{
    match value {
        Json::Object(entries) => find(entries, key),
        _ => None,
    }
}

} // verus!
