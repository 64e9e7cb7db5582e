//! JSON values, as the tools and the model exchange them.
use vstd::prelude::*;

use crate::text::same;

verus! {

/// The number type of `serde_json`. An integer in it is read out; a number with
/// a fraction or an exponent is carried through as it is.
#[verifier::external_type_specification]
#[verifier::external_body]
pub struct ExJsonNumber(serde_json::Number);

/// The value type of `serde_json`.
#[verifier::external_type_specification]
#[verifier::external_body]
pub struct ExJsonValue(serde_json::Value);

/// A JSON number: an integer, or a number of which nothing is read.
pub enum JsonNumber {
    PosInt(u64),
    NegInt(i64),
    Float(serde_json::Number),
}

/// A JSON value. Where an object names a key twice, the later entry counts.
pub enum Json {
    Null,
    Bool(bool),
    Number(JsonNumber),
    String(String),
    Array(Vec<Json>),
    Object(Vec<(String, Json)>),
}

pub enum NumberTree {
    Int(int),
    Float(serde_json::Number),
}

/// What a JSON value says.
pub enum JsonTree {
    Null,
    Bool(bool),
    Number(NumberTree),
    Text(Seq<char>),
    Array(Seq<JsonTree>),
    Object(Map<Seq<char>, JsonTree>),
}

impl JsonNumber {
    pub open spec fn tree(self) -> NumberTree {
        match self {
            JsonNumber::PosInt(n) => NumberTree::Int(n as int),
            JsonNumber::NegInt(n) => NumberTree::Int(n as int),
            JsonNumber::Float(n) => number_tree(n),
        }
    }
}

impl Json {
    pub open spec fn tree(self) -> JsonTree
        decreases self,
    {
        match self {
            Json::Null => JsonTree::Null,
            Json::Bool(b) => JsonTree::Bool(b),
            Json::Number(n) => JsonTree::Number(n.tree()),
            Json::String(s) => JsonTree::Text(s@),
            Json::Array(items) => JsonTree::Array(array_tree(items@)),
            Json::Object(entries) => JsonTree::Object(object_tree(entries@)),
        }
    }
}

pub open spec fn array_tree(items: Seq<Json>) -> Seq<JsonTree>
    decreases items,
{
    if items.len() == 0 {
        seq![]
    } else {
        array_tree(items.drop_last()).push(items.last().tree())
    }
}

pub open spec fn object_tree(entries: Seq<(String, Json)>) -> Map<Seq<char>, JsonTree>
    decreases entries,
{
    if entries.len() == 0 {
        Map::empty()
    } else {
        object_tree(entries.drop_last()).insert(entries.last().0@, entries.last().1.tree())
    }
}

impl Clone for JsonNumber {
    fn clone(&self) -> (copy: Self)
        ensures
            copy == *self,
    {
        match self {
            JsonNumber::PosInt(n) => JsonNumber::PosInt(*n),
            JsonNumber::NegInt(n) => JsonNumber::NegInt(*n),
            JsonNumber::Float(n) => JsonNumber::Float(n.clone()),
        }
    }
}

impl Clone for Json {
    fn clone(&self) -> (copy: Self)
        ensures
            copy.tree() == self.tree(),
        decreases *self,
    {
        match self {
            Json::Null => Json::Null,
            Json::Bool(b) => Json::Bool(*b),
            Json::Number(n) => Json::Number(n.clone()),
            Json::String(s) => Json::String(s.clone()),
            Json::Array(items) => {
                let mut copies: Vec<Json> = Vec::new();
                let mut i: usize = 0;
                assert(items@.take(0) =~= Seq::empty());
                while i < items.len()
                    invariant
                        *self == Json::Array(*items),
                        i <= items@.len(),
                        array_tree(copies@) == array_tree(items@.take(i as int)),
                    decreases items@.len() - i,
                {
                    assert(decreases_to!(*self => self->Array_0@[i as int]));
                    let ghost before = copies@;
                    copies.push(items[i].clone());
                    assert(copies@.drop_last() =~= before);
                    assert(items@.take(i + 1).drop_last() =~= items@.take(i as int));
                    i += 1;
                }
                assert(items@.take(i as int) =~= items@);
                Json::Array(copies)
            },
            Json::Object(entries) => {
                let mut copies: Vec<(String, Json)> = Vec::new();
                let mut i: usize = 0;
                assert(entries@.take(0) =~= Seq::empty());
                while i < entries.len()
                    invariant
                        *self == Json::Object(*entries),
                        i <= entries@.len(),
                        object_tree(copies@) == object_tree(entries@.take(i as int)),
                    decreases entries@.len() - i,
                {
                    assert(decreases_to!(*self => self->Object_0@[i as int].1));
                    let ghost before = copies@;
                    copies.push((entries[i].0.clone(), entries[i].1.clone()));
                    assert(copies@.drop_last() =~= before);
                    assert(entries@.take(i + 1).drop_last() =~= entries@.take(i as int));
                    i += 1;
                }
                assert(entries@.take(i as int) =~= entries@);
                Json::Object(copies)
            },
        }
    }
}

/// What a number of `serde_json` says.
pub uninterp spec fn number_tree(number: serde_json::Number) -> NumberTree;

/// What a value of `serde_json` says.
pub uninterp spec fn value_tree(value: serde_json::Value) -> JsonTree;

/// What `serde_json::from_str` makes of a text: a value, or the message of the
/// error.
pub uninterp spec fn json_parse(text: Seq<char>) -> Result<JsonTree, Seq<char>>;

/// The text that `serde_json::to_string` gives for a value.
pub uninterp spec fn json_write(tree: JsonTree) -> Seq<char>;

/// One level of a value of `serde_json`.
pub enum JsonNode {
    Null,
    Bool(bool),
    Number(serde_json::Number),
    String(String),
    Array(Vec<serde_json::Value>),
    Object(Vec<(String, serde_json::Value)>),
}

pub open spec fn value_items(items: Seq<serde_json::Value>) -> Seq<JsonTree> {
    items.map_values(|v: serde_json::Value| value_tree(v))
}

pub open spec fn value_entries(entries: Seq<(String, serde_json::Value)>) -> Map<
    Seq<char>,
    JsonTree,
>
    decreases entries.len(),
{
    if entries.len() == 0 {
        Map::empty()
    } else {
        value_entries(entries.drop_last()).insert(
            entries.last().0@,
            value_tree(entries.last().1),
        )
    }
}

/// No key stands in two entries.
pub open spec fn keys_differ(entries: Seq<(String, serde_json::Value)>) -> bool {
    forall|i: int, j: int|
        0 <= i < j < entries.len() ==> (#[trigger] entries[i]).0@ != (#[trigger] entries[j]).0@
}

/// What a level of a value says, once the levels below it are known.
pub open spec fn node_tree(node: JsonNode) -> JsonTree {
    match node {
        JsonNode::Null => JsonTree::Null,
        JsonNode::Bool(b) => JsonTree::Bool(b),
        JsonNode::Number(n) => JsonTree::Number(number_tree(n)),
        JsonNode::String(s) => JsonTree::Text(s@),
        JsonNode::Array(items) => JsonTree::Array(value_items(items@)),
        JsonNode::Object(entries) => JsonTree::Object(value_entries(entries@)),
    }
}

/// Tells the variants of `serde_json::Value` apart and hands out what the one at
/// hand holds. The entries of an object have different keys.
#[verifier::external_body]
fn open_value(value: &serde_json::Value) -> (node: JsonNode)
    ensures
        value_tree(*value) == node_tree(node),
        node matches JsonNode::Object(entries) ==> keys_differ(entries@),
{
    match value {
        serde_json::Value::Null => JsonNode::Null,
        serde_json::Value::Bool(b) => JsonNode::Bool(*b),
        serde_json::Value::Number(n) => JsonNode::Number(n.clone()),
        serde_json::Value::String(s) => JsonNode::String(s.clone()),
        serde_json::Value::Array(items) => JsonNode::Array(items.clone()),
        serde_json::Value::Object(map) => JsonNode::Object(map.clone().into_iter().collect()),
    }
}

/// Calls `serde_json::Number::as_u64` and `as_i64`: each gives the number if it
/// is an integer of that range, and neither does if it is no integer of either.
#[verifier::external_body]
fn integer_in(number: &serde_json::Number) -> (found: (Option<u64>, Option<i64>))
    ensures
        match found {
            (Some(n), _) => number_tree(*number) == NumberTree::Int(n as int),
            (None, Some(n)) => number_tree(*number) == NumberTree::Int(n as int),
            (None, None) => number_tree(*number) == NumberTree::Float(*number),
        },
{
    (number.as_u64(), number.as_i64())
}

/// Calls the `From<u64>` of `serde_json::Number`, which keeps the integer.
#[verifier::external_body]
fn number_of_u64(n: u64) -> (number: serde_json::Number)
    ensures
        number_tree(number) == NumberTree::Int(n as int),
{
    serde_json::Number::from(n)
}

/// Calls the `From<i64>` of `serde_json::Number`, which keeps the integer.
#[verifier::external_body]
fn number_of_i64(n: i64) -> (number: serde_json::Number)
    ensures
        number_tree(number) == NumberTree::Int(n as int),
{
    serde_json::Number::from(n)
}

/// A JSON number read out: an integer where it is one.
pub(crate) fn json_number(number: serde_json::Number) -> (n: JsonNumber)
    ensures
        n.tree() == number_tree(number),
        n matches JsonNumber::Float(f) ==> f == number && number_tree(f) == NumberTree::Float(f),
{
    match integer_in(&number) {
        (Some(n), _) => JsonNumber::PosInt(n),
        (None, Some(n)) => JsonNumber::NegInt(n),
        (None, None) => JsonNumber::Float(number),
    }
}

/// Calls `serde_json::from_str`, whose result depends on the text alone.
#[verifier::external_body]
fn read_value(text: &str) -> (value: Result<serde_json::Value, String>)
    ensures
        match value {
            Ok(v) => json_parse(text@) == Ok::<JsonTree, Seq<char>>(value_tree(v)),
            Err(message) => json_parse(text@) == Err::<JsonTree, Seq<char>>(message@),
        },
{
    serde_json::from_str(text).map_err(|e| e.to_string())
}

proof fn lemma_value_entry(entries: Seq<(String, serde_json::Value)>, i: int)
    requires
        keys_differ(entries),
        0 <= i < entries.len(),
    ensures
        value_entries(entries).contains_key(entries[i].0@),
        value_entries(entries)[entries[i].0@] == value_tree(entries[i].1),
    decreases entries.len(),
{
    if i < entries.len() - 1 {
        lemma_value_entry(entries.drop_last(), i);
        assert(entries.drop_last()[i] == entries[i]);
        assert(entries[i].0@ != entries[entries.len() - 1].0@);
    }
}

proof fn lemma_value_entries_finite(entries: Seq<(String, serde_json::Value)>)
    ensures
        value_entries(entries).dom().finite(),
    decreases entries.len(),
{
    if entries.len() > 0 {
        lemma_value_entries_finite(entries.drop_last());
    }
}

/// Reads a value of `serde_json` out.
fn json_of_value(value: &serde_json::Value) -> (json: Json)
    ensures
        json.tree() == value_tree(*value),
    decreases value_tree(*value),
{
    match open_value(value) {
        JsonNode::Null => Json::Null,
        JsonNode::Bool(b) => Json::Bool(b),
        JsonNode::Number(n) => Json::Number(json_number(n)),
        JsonNode::String(s) => Json::String(s),
        JsonNode::Array(items) => {
            let mut found: Vec<Json> = Vec::new();
            let mut i: usize = 0;
            while i < items.len()
                invariant
                    value_tree(*value) == JsonTree::Array(value_items(items@)),
                    i <= items@.len(),
                    found@.len() == i,
                    array_tree(found@) == value_items(items@).take(i as int),
                decreases items@.len() - i,
            {
                assert(value_tree(*value)->Array_0[i as int] == value_tree(items@[i as int]));
                let ghost before = found@;
                found.push(json_of_value(&items[i]));
                assert(found@.drop_last() =~= before);
                assert(array_tree(found@) =~= value_items(items@).take(i + 1));
                i += 1;
            }
            assert(array_tree(found@) =~= value_items(items@));
            Json::Array(found)
        },
        JsonNode::Object(entries) => {
            let mut found: Vec<(String, Json)> = Vec::new();
            let mut i: usize = 0;
            assert(object_tree(found@) =~= value_entries(entries@.take(0)));
            while i < entries.len()
                invariant
                    value_tree(*value) == JsonTree::Object(value_entries(entries@)),
                    keys_differ(entries@),
                    i <= entries@.len(),
                    object_tree(found@) == value_entries(entries@.take(i as int)),
                decreases entries@.len() - i,
            {
                let ghost map = value_entries(entries@);
                proof {
                    lemma_value_entry(entries@, i as int);
                    lemma_value_entries_finite(entries@);
                    let key = entries@[i as int].0@;
                    assert(decreases_to!(map => map[key]));
                    assert(decreases_to!(value_tree(*value) => value_tree(*value)->Object_0));
                }
                let ghost before = found@;
                found.push((entries[i].0.clone(), json_of_value(&entries[i].1)));
                assert(found@.drop_last() =~= before);
                assert(entries@.take(i + 1).drop_last() =~= entries@.take(i as int));
                i += 1;
            }
            assert(entries@.take(i as int) =~= entries@);
            Json::Object(found)
        },
    }
}

/// Reads a JSON text.
pub fn parse_json(text: &str) -> (json: Result<Json, String>)
    ensures
        match json {
            Ok(value) => json_parse(text@) == Ok::<JsonTree, Seq<char>>(value.tree()),
            Err(message) => json_parse(text@) == Err::<JsonTree, Seq<char>>(message@),
        },
{
    match read_value(text) {
        Ok(value) => Ok(json_of_value(&value)),
        Err(message) => Err(message),
    }
}

/// Builds a value of `serde_json` from its level, an object with the
/// `FromIterator` of its map.
#[verifier::external_body]
fn build_value(node: JsonNode) -> (value: serde_json::Value)
    requires
        node matches JsonNode::Object(entries) ==> keys_differ(entries@),
    ensures
        value_tree(value) == node_tree(node),
{
    match node {
        JsonNode::Null => serde_json::Value::Null,
        JsonNode::Bool(b) => serde_json::Value::Bool(b),
        JsonNode::Number(n) => serde_json::Value::Number(n),
        JsonNode::String(s) => serde_json::Value::String(s),
        JsonNode::Array(items) => serde_json::Value::Array(items),
        JsonNode::Object(entries) => serde_json::Value::Object(entries.into_iter().collect()),
    }
}

/// How many characters stand before the quotation mark that ends a literal, once
/// its first quotation mark is gone. A backslash takes the next character with it.
pub open spec fn literal_end(s: Seq<char>) -> nat
    decreases s.len(),
{
    if s.len() == 0 || s[0] == '"' {
        0
    } else if s[0] == '\\' && s.len() > 1 {
        2 + literal_end(s.skip(2))
    } else {
        1 + literal_end(s.skip(1))
    }
}

/// The text is a JSON literal for `said` on one line, which is read back as that.
pub open spec fn is_literal_for(text: Seq<char>, said: Seq<char>) -> bool {
    &&& text.len() > 1
    &&& text[0] == '"'
    &&& text.last() == '"'
    &&& literal_end(text.skip(1)) == text.len() - 2
    &&& forall|i: int| 0 <= i < text.len() ==> #[trigger] text[i] >= ' '
    &&& json_parse(text) == Ok::<JsonTree, Seq<char>>(JsonTree::Text(said))
}

/// Calls `serde_json::to_string`, which gives every value a text that depends on
/// what the value says alone: the entries of an object come in the order of
/// their keys. A string becomes a literal in quotation marks; in it quotation
/// marks and backslashes have a backslash before them, all that is below a space
/// is written as an escape, and `serde_json::from_str` reads the string back.
#[verifier::external_body]
fn write_value(value: &serde_json::Value) -> (text: String)
    ensures
        text@ == json_write(value_tree(*value)),
        value_tree(*value) matches JsonTree::Text(said) ==> is_literal_for(text@, said),
{
    serde_json::to_string(value).expect("every JSON value has a text")
}

/// Calls the `Clone` of `serde_json::Number`, which gives the same number.
pub assume_specification[ <serde_json::Number as Clone>::clone ](
    number: &serde_json::Number,
) -> (copy: serde_json::Number)
    ensures
        copy == *number,
;

/// Whether an entry has the key.
fn has_key(entries: &Vec<(String, serde_json::Value)>, key: &str) -> (found: bool)
    ensures
        found == value_entries(entries@).contains_key(key@),
        found == exists|i: int| 0 <= i < entries@.len() && entries@[i].0@ == key@,
{
    let mut n: usize = entries.len();
    assert(entries@.take(n as int) =~= entries@);
    while n > 0
        invariant
            n <= entries@.len(),
            value_entries(entries@).contains_key(key@) == value_entries(
                entries@.take(n as int),
            ).contains_key(key@),
            forall|i: int| n <= i < entries@.len() ==> (#[trigger] entries@[i]).0@ != key@,
        decreases n,
    {
        assert(entries@.take(n as int).drop_last() =~= entries@.take(n - 1));
        if same(entries[n - 1].0.as_str(), key) {
            return true;
        }
        n -= 1;
    }
    false
}

fn value_of_json(json: &Json) -> (value: serde_json::Value)
    ensures
        value_tree(value) == json.tree(),
    decreases *json,
{
    match json {
        Json::Null => build_value(JsonNode::Null),
        Json::Bool(b) => build_value(JsonNode::Bool(*b)),
        Json::Number(JsonNumber::PosInt(n)) => build_value(JsonNode::Number(number_of_u64(*n))),
        Json::Number(JsonNumber::NegInt(n)) => build_value(JsonNode::Number(number_of_i64(*n))),
        Json::Number(JsonNumber::Float(n)) => build_value(JsonNode::Number(n.clone())),
        Json::String(s) => build_value(JsonNode::String(s.clone())),
        Json::Array(items) => {
            let mut built: Vec<serde_json::Value> = Vec::new();
            let mut i: usize = 0;
            assert(value_items(built@) =~= array_tree(items@.take(0)));
            while i < items.len()
                invariant
                    *json == Json::Array(*items),
                    i <= items@.len(),
                    value_items(built@) == array_tree(items@.take(i as int)),
                decreases items@.len() - i,
            {
                let ghost before = value_items(built@);
                assert(decreases_to!(*json => json->Array_0@[i as int]));
                built.push(value_of_json(&items[i]));
                assert(items@.take(i + 1).drop_last() =~= items@.take(i as int));
                assert(value_items(built@) =~= before.push(items@[i as int].tree()));
                i += 1;
            }
            assert(items@.take(i as int) =~= items@);
            build_value(JsonNode::Array(built))
        },
        Json::Object(entries) => {
            let mut built: Vec<(String, serde_json::Value)> = Vec::new();
            let mut n: usize = entries.len();
            assert(entries@.take(n as int) =~= entries@);
            assert(object_tree(entries@).union_prefer_right(value_entries(built@)) =~= object_tree(
                entries@,
            ));
            while n > 0
                invariant
                    *json == Json::Object(*entries),
                    n <= entries@.len(),
                    keys_differ(built@),
                    object_tree(entries@) == object_tree(
                        entries@.take(n as int),
                    ).union_prefer_right(value_entries(built@)),
                decreases n,
            {
                n -= 1;
                let ghost before = built@;
                let ghost key = entries@[n as int].0@;
                let ghost earlier = object_tree(entries@.take(n as int));
                assert(entries@.take(n + 1).drop_last() =~= entries@.take(n as int));
                if !has_key(&built, entries[n].0.as_str()) {
                    assert(decreases_to!(*json => json->Object_0@[n as int].1));
                    built.push((entries[n].0.clone(), value_of_json(&entries[n].1)));
                    assert(built@.drop_last() =~= before);
                }
                assert(object_tree(entries@) =~= earlier.union_prefer_right(
                    value_entries(built@),
                ));
            }
            assert(object_tree(entries@) =~= value_entries(built@));
            build_value(JsonNode::Object(built))
        },
    }
}

/// The text of a JSON value.
pub fn json_to_string(json: &Json) -> (text: String)
    ensures
        text@ == json_write(json.tree()),
{
    write_value(&value_of_json(json))
}

/// The JSON literal for a text.
pub fn literal_of(text: &str) -> (literal: String)
    ensures
        literal@ == json_write(JsonTree::Text(text@)),
        is_literal_for(literal@, text@),
{
    write_value(&build_value(JsonNode::String(text.to_string())))
}

/// The value that an object has for a key.
pub open spec fn field(tree: JsonTree, key: Seq<char>) -> Option<JsonTree> {
    match tree {
        JsonTree::Object(map) => if map.contains_key(key) {
            Some(map[key])
        } else {
            None
        },
        _ => None,
    }
}

/// The text that an object has for a key.
pub open spec fn text_field(tree: JsonTree, key: Seq<char>) -> Option<Seq<char>> {
    match field(tree, key) {
        Some(JsonTree::Text(text)) => Some(text),
        _ => None,
    }
}

/// The value that an object has for a key; `None` where there is none, and
/// where the value is no object.
pub fn get<'a>(json: &'a Json, key: &str) -> (found: Option<&'a Json>)
    ensures
        match found {
            Some(value) => field(json.tree(), key@) == Some(value.tree()),
            None => field(json.tree(), key@) is None,
        },
{
    match json {
        Json::Object(entries) => {
            let mut n: usize = entries.len();
            assert(entries@.take(n as int) =~= entries@);
            while n > 0
                invariant
                    n <= entries@.len(),
                    json.tree() == JsonTree::Object(object_tree(entries@)),
                    field(json.tree(), key@) == field(
                        JsonTree::Object(object_tree(entries@.take(n as int))),
                        key@,
                    ),
                decreases n,
            {
                assert(entries@.take(n as int).drop_last() =~= entries@.take(n - 1));
                if same(entries[n - 1].0.as_str(), key) {
                    return Some(&entries[n - 1].1);
                }
                n -= 1;
            }
            None
        },
        _ => None,
    }
}

/// The text that an object has for a key.
pub fn get_text<'a>(json: &'a Json, key: &str) -> (found: Option<&'a str>)
    ensures
        match found {
            Some(text) => text_field(json.tree(), key@) == Some(text@),
            None => text_field(json.tree(), key@) is None,
        },
{
    match get(json, key) {
        Some(Json::String(text)) => Some(text.as_str()),
        _ => None,
    }
}

/// The JSON value of a text.
pub fn text_json(text: &str) -> (json: Json)
    ensures
        json.tree() == JsonTree::Text(text@),
{
    Json::String(text.to_string())
}

/// An object without entries.
pub fn empty_object() -> (json: Json)
    ensures
        json is Object,
        json.tree() == JsonTree::Object(Map::empty()),
{
    Json::Object(Vec::new())
}

/// An object with one entry more.
pub fn with_entry(object: Json, key: &str, value: Json) -> (json: Json)
    requires
        object is Object,
    ensures
        json is Object,
        json.tree() == JsonTree::Object(object.tree()->Object_0.insert(key@, value.tree())),
{
    match object {
        Json::Object(entries) => {
            let mut all = entries;
            all.push((key.to_string(), value));
            assert(all@.drop_last() =~= entries@);
            Json::Object(all)
        },
        other => other,
    }
}

/// The JSON trees of texts.
pub open spec fn text_trees(items: Seq<Seq<char>>) -> Seq<JsonTree> {
    items.map_values(|text: Seq<char>| JsonTree::Text(text))
}

/// An array of texts.
pub fn text_array(items: &Vec<&str>) -> (json: Json)
    ensures
        json.tree() == JsonTree::Array(text_trees(items@.map_values(|s: &str| s@))),
{
    let mut all: Vec<Json> = Vec::new();
    let mut i: usize = 0;
    let ghost wanted = text_trees(items@.map_values(|s: &str| s@));
    while i < items.len()
        invariant
            i <= items@.len(),
            wanted == text_trees(items@.map_values(|s: &str| s@)),
            array_tree(all@) == wanted.take(i as int),
        decreases items@.len() - i,
    {
        let ghost before = all@;
        all.push(text_json(items[i]));
        assert(all@.drop_last() =~= before);
        assert(array_tree(all@) =~= wanted.take(i + 1));
        i += 1;
    }
    assert(wanted.take(i as int) =~= wanted);
    Json::Array(all)
}

/// An object has for a key what its last entry of that key says, and nothing where none
/// has it.
pub proof fn law_later_entry_counts(
    entries: Seq<(String, Json)>,
    key: String,
    value: Json,
    other: Seq<char>,
)
    ensures
        object_tree(Seq::empty()) == Map::<Seq<char>, JsonTree>::empty(),
        object_tree(entries.push((key, value)))[key@] == value.tree(),
        object_tree(entries.push((key, value))).contains_key(key@),
        other != key@ ==> object_tree(entries.push((key, value))).contains_key(other)
            == object_tree(entries).contains_key(other),
        other != key@ && object_tree(entries).contains_key(other) ==> object_tree(
            entries.push((key, value)),
        )[other] == object_tree(entries)[other],
{
    assert(entries.push((key, value)).drop_last() =~= entries);
}

/// A field is what the object has for the key; a text field is one that is a text. What
/// is no object has no fields.
pub proof fn law_field_is_looked_up(
    fields: Map<Seq<char>, JsonTree>,
    key: Seq<char>,
    value: JsonTree,
    other: JsonTree,
)
    ensures
        field(JsonTree::Object(fields.insert(key, value)), key) == Some(value),
        field(JsonTree::Object(fields.remove(key)), key) is None,
        text_field(JsonTree::Object(fields.insert(key, value)), key) == match value {
            JsonTree::Text(text) => Some(text),
            _ => None::<Seq<char>>,
        },
        text_field(JsonTree::Object(fields.remove(key)), key) is None,
        !(other is Object) ==> field(other, key) is None && text_field(other, key) is None,
{
}

/// The values of an array stand in it in order.
pub proof fn law_array_keeps_its_values(items: Seq<Json>, i: int)
    requires
        0 <= i < items.len(),
    ensures
        array_tree(items).len() == items.len(),
        array_tree(items)[i] == items[i].tree(),
    decreases items.len(),
{
    lemma_array_len(items);
    if i < items.len() - 1 {
        law_array_keeps_its_values(items.drop_last(), i);
    } else {
        lemma_array_len(items.drop_last());
    }
}

proof fn lemma_array_len(items: Seq<Json>)
    ensures
        array_tree(items).len() == items.len(),
    decreases items.len(),
{
    if items.len() > 0 {
        lemma_array_len(items.drop_last());
    }
}

/// What a JSON value says: texts and integers as they are, of an array value by value, and
/// of an object what its entries say.
pub proof fn law_value_is_read_part_by_part(json: Json)
    ensures
        match json {
            Json::Null => json.tree() is Null,
            Json::Bool(b) => json.tree() == JsonTree::Bool(b),
            Json::Number(JsonNumber::PosInt(n)) => json.tree() == JsonTree::Number(
                NumberTree::Int(n as int),
            ),
            Json::Number(JsonNumber::NegInt(n)) => json.tree() == JsonTree::Number(
                NumberTree::Int(n as int),
            ),
            Json::Number(JsonNumber::Float(n)) => json.tree() == JsonTree::Number(number_tree(n)),
            Json::String(s) => json.tree() == JsonTree::Text(s@),
            Json::Array(items) => json.tree() == JsonTree::Array(array_tree(items@)),
            Json::Object(entries) => json.tree() == JsonTree::Object(object_tree(entries@)),
        },
{
}

/// Texts stand in an array of texts in order.
pub proof fn law_texts_stand_in_order(items: Seq<Seq<char>>)
    ensures
        text_trees(items).len() == items.len(),
        forall|i: int|
            0 <= i < items.len() ==> text_trees(items)[i] == JsonTree::Text(#[trigger] items[i]),
{
}

}
