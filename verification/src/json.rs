//! JSON values, and reading them from text.
use vstd::prelude::*;

use crate::text::{opt_text, same, texts};

verus! {

/// A JSON value. Numbers that fit an `i64` are integers; others are kept in
/// their written form. Objects are lists of members; those read from text list
/// them as `serde_json` walks its map.
#[derive(Debug, PartialEq, Eq)]
pub enum Json {
    Null,
    Bool(bool),
    Int(i64),
    Number(String),
    Text(String),
    List(Vec<Json>),
    Object(Vec<(String, Json)>),
}

/// What a JSON value holds.
pub enum JsonView {
    Null,
    Bool(bool),
    Int(i64),
    Number(Seq<char>),
    Text(Seq<char>),
    List(Seq<JsonView>),
    Object(Seq<(Seq<char>, JsonView)>),
}

/// What a JSON value holds.
pub open spec fn json_view(value: Json) -> JsonView
    decreases value,
{
    match value {
        Json::Null => JsonView::Null,
        Json::Bool(b) => JsonView::Bool(b),
        Json::Int(i) => JsonView::Int(i),
        Json::Number(s) => JsonView::Number(s@),
        Json::Text(s) => JsonView::Text(s@),
        Json::List(items) => JsonView::List(
            Seq::new(
                items@.len(),
                |i: int|
                    if 0 <= i < items@.len() {
                        json_view(items@[i])
                    } else {
                        JsonView::Null
                    },
            ),
        ),
        Json::Object(members) => JsonView::Object(
            Seq::new(
                members@.len(),
                |i: int|
                    if 0 <= i < members@.len() {
                        (members@[i].0@, json_view(members@[i].1))
                    } else {
                        (Seq::empty(), JsonView::Null)
                    },
            ),
        ),
    }
}

impl View for Json {
    type V = JsonView;

    open spec fn view(&self) -> JsonView {
        json_view(*self)
    }
}

/// What the items of a list hold.
pub open spec fn item_views(items: Seq<Json>) -> Seq<JsonView> {
    Seq::new(items.len(), |i: int| items[i]@)
}

/// What the members of an object hold.
pub open spec fn member_views(members: Seq<(String, Json)>) -> Seq<(Seq<char>, JsonView)> {
    Seq::new(members.len(), |i: int| (members[i].0@, members[i].1@))
}

/// The value of a list is the list of its values.
pub proof fn lemma_list_view(value: Json, items: Vec<Json>)
    requires
        value == Json::List(items),
    ensures
        value@ == JsonView::List(item_views(items@)),
{
    if let JsonView::List(seen) = value@ {
        assert(seen =~= item_views(items@));
    }
}

/// The value of an object is the object of its values.
pub proof fn lemma_object_view(value: Json, members: Vec<(String, Json)>)
    requires
        value == Json::Object(members),
    ensures
        value@ == JsonView::Object(member_views(members@)),
{
    if let JsonView::Object(seen) = value@ {
        assert(seen =~= member_views(members@));
    }
}

/// The value under a key of an object, from place `i` on.
pub open spec fn value_under(
    members: Seq<(Seq<char>, JsonView)>,
    key: Seq<char>,
    i: int,
) -> Option<JsonView>
    decreases members.len() - i,
{
    if i < 0 || i >= members.len() {
        None
    } else if members[i].0 == key {
        Some(members[i].1)
    } else {
        value_under(members, key, i + 1)
    }
}

/// The texts among values, in order.
pub open spec fn texts_in(items: Seq<JsonView>) -> Seq<Seq<char>>
    decreases items.len(),
{
    if items.len() == 0 {
        Seq::empty()
    } else {
        match items.last() {
            JsonView::Text(text) => texts_in(items.drop_last()).push(text),
            _ => texts_in(items.drop_last()),
        }
    }
}

impl JsonView {
    /// The member of an object under a key; other values have no members.
    pub open spec fn get(self, key: Seq<char>) -> Option<JsonView> {
        match self {
            JsonView::Object(members) => value_under(members, key, 0),
            _ => None,
        }
    }

    /// The text under a key.
    pub open spec fn text_at(self, key: Seq<char>) -> Option<Seq<char>> {
        match self.get(key) {
            Some(JsonView::Text(text)) => Some(text),
            _ => None,
        }
    }

    /// The flag under a key.
    pub open spec fn bool_at(self, key: Seq<char>) -> Option<bool> {
        match self.get(key) {
            Some(JsonView::Bool(flag)) => Some(flag),
            _ => None,
        }
    }

    /// The integer under a key.
    pub open spec fn int_at(self, key: Seq<char>) -> Option<i64> {
        match self.get(key) {
            Some(JsonView::Int(value)) => Some(value),
            _ => None,
        }
    }

    /// The items of the list under a key; none where there is no list.
    pub open spec fn items_at(self, key: Seq<char>) -> Seq<JsonView> {
        match self.get(key) {
            Some(JsonView::List(items)) => items,
            _ => Seq::empty(),
        }
    }
}

impl Json {
    /// Whether the value is an object.
    pub fn is_object(&self) -> (yes: bool)
        ensures
            yes == (self is Object),
    {
        match self {
            Json::Object(_) => true,
            _ => false,
        }
    }

    /// The member of an object under a key.
    pub fn get(&self, key: &str) -> (found: Option<&Json>)
        ensures
            match found {
                Some(value) => self@.get(key@) == Some(value@),
                None => self@.get(key@) is None,
            },
    {
        let members = match self {
            Json::Object(members) => members,
            _ => {
                return None;
            },
        };
        let ghost views = member_views(members@);
        proof {
            lemma_object_view(*self, *members);
        }
        let mut i: usize = 0;
        while i < members.len()
            invariant
                i <= members@.len(),
                *self == Json::Object(*members),
                views == member_views(members@),
                self@ == JsonView::Object(views),
                value_under(views, key@, 0) == value_under(views, key@, i as int),
            decreases members@.len() - i,
        {
            if same(&members[i].0, key) {
                return Some(&members[i].1);
            }
            i += 1;
        }
        None
    }

    /// The text of an object's member.
    pub fn get_text(&self, key: &str) -> (text: Option<String>)
        ensures
            opt_text(text) == self@.text_at(key@),
    {
        match self.get(key) {
            Some(Json::Text(text)) => Some(text.clone()),
            _ => None,
        }
    }

    /// The text of an object's member, or the empty text.
    pub fn get_text_or_empty(&self, key: &str) -> (text: String)
        ensures
            text@ == or_empty(self@.text_at(key@)),
    {
        match self.get(key) {
            Some(Json::Text(text)) => text.clone(),
            _ => String::new(),
        }
    }

    /// The flag of an object's member.
    pub fn get_bool(&self, key: &str) -> (flag: Option<bool>)
        ensures
            flag == self@.bool_at(key@),
    {
        match self.get(key) {
            Some(Json::Bool(flag)) => Some(*flag),
            _ => None,
        }
    }

    /// The integer of an object's member.
    pub fn get_int(&self, key: &str) -> (value: Option<i64>)
        ensures
            value == self@.int_at(key@),
    {
        match self.get(key) {
            Some(Json::Int(value)) => Some(*value),
            _ => None,
        }
    }
}

/// The text, or the empty text where there is none.
pub open spec fn or_empty(text: Option<Seq<char>>) -> Seq<char> {
    match text {
        Some(text) => text,
        None => Seq::empty(),
    }
}

/// Computes [`texts_in`].
pub fn collect_texts(items: &[Json]) -> (out: Vec<String>)
    ensures
        texts(out@) == texts_in(item_views(items@)),
{
    let ghost views = item_views(items@);
    let mut out: Vec<String> = Vec::new();
    let mut i: usize = 0;
    while i < items.len()
        invariant
            i <= items@.len(),
            views == item_views(items@),
            texts(out@) == texts_in(views.take(i as int)),
        decreases items@.len() - i,
    {
        let ghost before = out@;
        proof {
            assert(views.take(i + 1).drop_last() =~= views.take(i as int));
            assert(views.take(i + 1).last() == items@[i as int]@);
        }
        if let Json::Text(text) = &items[i] {
            out.push(text.clone());
            proof {
                assert(texts(out@) =~= texts(before).push(text@));
            }
        }
        i += 1;
    }
    proof {
        assert(views.take(views.len() as int) =~= views);
    }
    out
}

// ---------------------------------------------------------------------------
// Reading
// ---------------------------------------------------------------------------
/// A JSON document in memory, as `serde_json` holds it.
#[verifier::external_type_specification]
#[verifier::external_body]
pub struct ExValue(serde_json::Value);

/// The document that the bytes spell, where they spell one.
pub uninterp spec fn document(bytes: Seq<u8>) -> Option<JsonView>;

/// Moves a `serde_json::Value` into a [`Json`], variant by variant.
#[verifier::external_body]
fn convert(value: serde_json::Value) -> Json {
    match value {
        serde_json::Value::Null => Json::Null,
        serde_json::Value::Bool(flag) => Json::Bool(flag),
        serde_json::Value::Number(number) => match number.as_i64() {
            Some(value) => Json::Int(value),
            None => Json::Number(number.to_string()),
        },
        serde_json::Value::String(text) => Json::Text(text),
        serde_json::Value::Array(items) => Json::List(items.into_iter().map(convert).collect()),
        serde_json::Value::Object(members) => Json::Object(
            members.into_iter().map(|(key, value)| (key, convert(value))).collect(),
        ),
    }
}

/// Calls `serde_json::from_slice` for a `Value`. What it reads, and whether it
/// reads anything, depends on the bytes alone.
#[verifier::external_body]
pub(crate) fn parse(bytes: &[u8]) -> (value: Option<Json>)
    ensures
        match value {
            Some(json) => document(bytes@) == Some(json@),
            None => document(bytes@) is None,
        },
{
    match serde_json::from_slice::<serde_json::Value>(bytes) {
        Ok(value) => Some(convert(value)),
        Err(_) => None,
    }
}

} // verus!
