//! The documents in which the model gives the input of a tool.
use vstd::prelude::*;

use crate::json::{
    array_tree, json_number, json_to_string, json_write, number_tree, object_tree, Json, JsonNumber,
    JsonTree, NumberTree,
};
use crate::text::same;

verus! {

/// A number of a document. A float is held as the JSON number that it gives;
/// an infinite one, and one that is no number, gives none.
pub enum DocumentNumber {
    PosInt(u64),
    NegInt(i64),
    Float(Option<serde_json::Number>),
}

/// A document. Where an object names a key twice, the later entry counts.
pub enum Document {
    Null,
    Bool(bool),
    Number(DocumentNumber),
    String(String),
    Array(Vec<Document>),
    Object(Vec<(String, Document)>),
}

/// What a document says.
pub enum DocumentTree {
    Null,
    Bool(bool),
    Number(DocumentNumber),
    Text(Seq<char>),
    Array(Seq<DocumentTree>),
    Object(Map<Seq<char>, DocumentTree>),
}

impl Document {
    pub open spec fn tree(self) -> DocumentTree
        decreases self,
    {
        match self {
            Document::Null => DocumentTree::Null,
            Document::Bool(b) => DocumentTree::Bool(b),
            Document::Number(n) => DocumentTree::Number(n),
            Document::String(s) => DocumentTree::Text(s@),
            Document::Array(items) => DocumentTree::Array(documents_tree(items@)),
            Document::Object(entries) => DocumentTree::Object(entries_tree(entries@)),
        }
    }
}

pub open spec fn documents_tree(items: Seq<Document>) -> Seq<DocumentTree>
    decreases items,
{
    if items.len() == 0 {
        seq![]
    } else {
        documents_tree(items.drop_last()).push(items.last().tree())
    }
}

pub open spec fn entries_tree(entries: Seq<(String, Document)>) -> Map<Seq<char>, DocumentTree>
    decreases entries,
{
    if entries.len() == 0 {
        Map::empty()
    } else {
        entries_tree(entries.drop_last()).insert(entries.last().0@, entries.last().1.tree())
    }
}

impl Clone for DocumentNumber {
    fn clone(&self) -> (copy: Self)
        ensures
            copy == *self,
    {
        match self {
            DocumentNumber::PosInt(i) => DocumentNumber::PosInt(*i),
            DocumentNumber::NegInt(i) => DocumentNumber::NegInt(*i),
            DocumentNumber::Float(Some(f)) => DocumentNumber::Float(Some(f.clone())),
            DocumentNumber::Float(None) => DocumentNumber::Float(None),
        }
    }
}

impl Clone for Document {
    fn clone(&self) -> (copy: Self)
        ensures
            copy.tree() == self.tree(),
        decreases *self,
    {
        match self {
            Document::Null => Document::Null,
            Document::Bool(b) => Document::Bool(*b),
            Document::Number(n) => Document::Number(n.clone()),
            Document::String(s) => Document::String(s.clone()),
            Document::Array(items) => {
                let mut copies: Vec<Document> = Vec::new();
                let mut i: usize = 0;
                assert(items@.take(0) =~= Seq::empty());
                while i < items.len()
                    invariant
                        *self == Document::Array(*items),
                        i <= items@.len(),
                        documents_tree(copies@) == documents_tree(items@.take(i as int)),
                    decreases items@.len() - i,
                {
                    assert(decreases_to!(*self => self->Array_0@[i as int]));
                    let ghost before = copies@;
                    copies.push(items[i].clone());
                    assert(copies@.drop_last() =~= before);
                    assert(items@.take(i + 1).drop_last() =~= items@.take(i as int));
                    i += 1;
                }
                assert(items@.take(i as int) =~= items@);
                Document::Array(copies)
            },
            Document::Object(entries) => {
                let mut copies: Vec<(String, Document)> = Vec::new();
                let mut i: usize = 0;
                assert(entries@.take(0) =~= Seq::empty());
                while i < entries.len()
                    invariant
                        *self == Document::Object(*entries),
                        i <= entries@.len(),
                        entries_tree(copies@) == entries_tree(entries@.take(i as int)),
                    decreases entries@.len() - i,
                {
                    assert(decreases_to!(*self => self->Object_0@[i as int].1));
                    let ghost before = copies@;
                    copies.push((entries[i].0.clone(), entries[i].1.clone()));
                    assert(copies@.drop_last() =~= before);
                    assert(entries@.take(i + 1).drop_last() =~= entries@.take(i as int));
                    i += 1;
                }
                assert(entries@.take(i as int) =~= entries@);
                Document::Object(copies)
            },
        }
    }
}

/// The float nearest to an integer, as `serde_json::Number::as_f64` gives it.
pub uninterp spec fn nearest_float(n: u64) -> serde_json::Number;

/// The number that a document has for a JSON number: an `i64` where it is an
/// integer that one can hold, else the float nearest to it.
pub open spec fn number_of(n: NumberTree) -> DocumentNumber {
    match n {
        NumberTree::Int(i) => if i64::MIN <= i <= i64::MAX {
            DocumentNumber::NegInt(i as i64)
        } else {
            DocumentNumber::Float(Some(nearest_float(i as u64)))
        },
        NumberTree::Float(f) => DocumentNumber::Float(Some(f)),
    }
}

/// The document that says what a JSON value says.
pub open spec fn document_of(tree: JsonTree) -> DocumentTree
    decreases tree,
{
    match tree {
        JsonTree::Null => DocumentTree::Null,
        JsonTree::Bool(b) => DocumentTree::Bool(b),
        JsonTree::Number(n) => DocumentTree::Number(number_of(n)),
        JsonTree::Text(text) => DocumentTree::Text(text),
        JsonTree::Array(items) => DocumentTree::Array(
            Seq::new(
                items.len(),
                |i: int|
                    if 0 <= i < items.len() {
                        document_of(items[i])
                    } else {
                        DocumentTree::Null
                    },
            ),
        ),
        JsonTree::Object(map) => DocumentTree::Object(
            Map::new(
                |k: Seq<char>| map.contains_key(k),
                |k: Seq<char>|
                    if map.contains_key(k) {
                        document_of(map[k])
                    } else {
                        DocumentTree::Null
                    },
            ),
        ),
    }
}

/// The JSON number that a document's number stands for; zero where it is not
/// finite.
pub open spec fn json_number_of(n: DocumentNumber) -> NumberTree {
    match n {
        DocumentNumber::PosInt(i) => NumberTree::Int(i as int),
        DocumentNumber::NegInt(i) => NumberTree::Int(i as int),
        DocumentNumber::Float(Some(f)) => number_tree(f),
        DocumentNumber::Float(None) => NumberTree::Int(0),
    }
}

/// The JSON value that says what a document says.
pub open spec fn json_of(tree: DocumentTree) -> JsonTree
    decreases tree,
{
    match tree {
        DocumentTree::Null => JsonTree::Null,
        DocumentTree::Bool(b) => JsonTree::Bool(b),
        DocumentTree::Number(n) => JsonTree::Number(json_number_of(n)),
        DocumentTree::Text(text) => JsonTree::Text(text),
        DocumentTree::Array(items) => JsonTree::Array(
            Seq::new(
                items.len(),
                |i: int|
                    if 0 <= i < items.len() {
                        json_of(items[i])
                    } else {
                        JsonTree::Null
                    },
            ),
        ),
        DocumentTree::Object(map) => JsonTree::Object(
            Map::new(
                |k: Seq<char>| map.contains_key(k),
                |k: Seq<char>|
                    if map.contains_key(k) {
                        json_of(map[k])
                    } else {
                        JsonTree::Null
                    },
            ),
        ),
    }
}

/// Calls `serde_json::Number::as_f64` on an integer and `from_f64` on the
/// result. The number depends on the integer alone and is a float.
#[verifier::external_body]
fn float_near(n: u64) -> (number: serde_json::Number)
    ensures
        number == nearest_float(n),
        number_tree(number) == NumberTree::Float(number),
{
    serde_json::Number::from(n).as_f64().and_then(serde_json::Number::from_f64).expect("finite")
}

fn document_number(number: &JsonNumber) -> (n: DocumentNumber)
    ensures
        n == number_of(number.tree()),
{
    let plain = match number {
        JsonNumber::PosInt(i) => JsonNumber::PosInt(*i),
        JsonNumber::NegInt(i) => JsonNumber::NegInt(*i),
        JsonNumber::Float(f) => json_number(f.clone()),
    };
    match plain {
        JsonNumber::PosInt(i) => if i <= i64::MAX as u64 {
            DocumentNumber::NegInt(i as i64)
        } else {
            DocumentNumber::Float(Some(float_near(i)))
        },
        JsonNumber::NegInt(i) => DocumentNumber::NegInt(i),
        JsonNumber::Float(f) => DocumentNumber::Float(Some(f)),
    }
}

/// The document that says what a JSON value says.
pub fn json_value_to_document(value: &Json) -> (document: Document)
    ensures
        document.tree() == document_of(value.tree()),
    decreases *value,
{
    match value {
        Json::Null => Document::Null,
        Json::Bool(b) => Document::Bool(*b),
        Json::Number(n) => Document::Number(document_number(n)),
        Json::String(s) => Document::String(s.clone()),
        Json::Array(items) => {
            let mut found: Vec<Document> = Vec::new();
            let mut i: usize = 0;
            assert(items@.take(0) =~= Seq::empty());
            assert(documents_tree(found@) =~= document_of(
                JsonTree::Array(array_tree(items@.take(0))),
            )->Array_0);
            while i < items.len()
                invariant
                    *value == Json::Array(*items),
                    i <= items@.len(),
                    DocumentTree::Array(documents_tree(found@)) == document_of(
                        JsonTree::Array(array_tree(items@.take(i as int))),
                    ),
                decreases items@.len() - i,
            {
                assert(decreases_to!(*value => value->Array_0@[i as int]));
                let ghost before = found@;
                found.push(json_value_to_document(&items[i]));
                proof {
                    assert(found@.drop_last() =~= before);
                    let some = array_tree(items@.take(i as int));
                    let more = array_tree(items@.take(i + 1));
                    assert(items@.take(i + 1).drop_last() =~= items@.take(i as int));
                    assert(more == some.push(items@[i as int].tree()));
                    assert(documents_tree(found@) =~= document_of(JsonTree::Array(more))->Array_0);
                }
                i += 1;
            }
            assert(items@.take(i as int) =~= items@);
            Document::Array(found)
        },
        Json::Object(entries) => {
            let mut found: Vec<(String, Document)> = Vec::new();
            let mut i: usize = 0;
            assert(entries@.take(0) =~= Seq::empty());
            assert(entries_tree(found@) =~= document_of(
                JsonTree::Object(object_tree(entries@.take(0))),
            )->Object_0);
            while i < entries.len()
                invariant
                    *value == Json::Object(*entries),
                    i <= entries@.len(),
                    DocumentTree::Object(entries_tree(found@)) == document_of(
                        JsonTree::Object(object_tree(entries@.take(i as int))),
                    ),
                decreases entries@.len() - i,
            {
                assert(decreases_to!(*value => value->Object_0@[i as int].1));
                let ghost before = found@;
                found.push((entries[i].0.clone(), json_value_to_document(&entries[i].1)));
                proof {
                    assert(found@.drop_last() =~= before);
                    let some = object_tree(entries@.take(i as int));
                    let more = object_tree(entries@.take(i + 1));
                    assert(entries@.take(i + 1).drop_last() =~= entries@.take(i as int));
                    assert(more == some.insert(entries@[i as int].0@, entries@[i as int].1.tree()));
                    assert(entries_tree(found@) =~= document_of(JsonTree::Object(more))->Object_0);
                }
                i += 1;
            }
            assert(entries@.take(i as int) =~= entries@);
            Document::Object(found)
        },
    }
}

/// The JSON value that says what a document says.
pub fn document_to_json_value(document: &Document) -> (value: Json)
    ensures
        value.tree() == json_of(document.tree()),
    decreases *document,
{
    match document {
        Document::Null => Json::Null,
        Document::Bool(b) => Json::Bool(*b),
        Document::Number(DocumentNumber::PosInt(i)) => Json::Number(JsonNumber::PosInt(*i)),
        Document::Number(DocumentNumber::NegInt(i)) => if *i >= 0 {
            Json::Number(JsonNumber::PosInt(*i as u64))
        } else {
            Json::Number(JsonNumber::NegInt(*i))
        },
        Document::Number(DocumentNumber::Float(Some(f))) => Json::Number(
            JsonNumber::Float(f.clone()),
        ),
        Document::Number(DocumentNumber::Float(None)) => Json::Number(JsonNumber::PosInt(0)),
        Document::String(s) => Json::String(s.clone()),
        Document::Array(items) => {
            let mut found: Vec<Json> = Vec::new();
            let mut i: usize = 0;
            assert(items@.take(0) =~= Seq::empty());
            assert(array_tree(found@) =~= json_of(
                DocumentTree::Array(documents_tree(items@.take(0))),
            )->Array_0);
            while i < items.len()
                invariant
                    *document == Document::Array(*items),
                    i <= items@.len(),
                    JsonTree::Array(array_tree(found@)) == json_of(
                        DocumentTree::Array(documents_tree(items@.take(i as int))),
                    ),
                decreases items@.len() - i,
            {
                assert(decreases_to!(*document => document->Array_0@[i as int]));
                let ghost before = found@;
                found.push(document_to_json_value(&items[i]));
                proof {
                    assert(found@.drop_last() =~= before);
                    let some = documents_tree(items@.take(i as int));
                    let more = documents_tree(items@.take(i + 1));
                    assert(items@.take(i + 1).drop_last() =~= items@.take(i as int));
                    assert(more == some.push(items@[i as int].tree()));
                    assert(array_tree(found@) =~= json_of(DocumentTree::Array(more))->Array_0);
                }
                i += 1;
            }
            assert(items@.take(i as int) =~= items@);
            Json::Array(found)
        },
        Document::Object(entries) => {
            let mut found: Vec<(String, Json)> = Vec::new();
            let mut i: usize = 0;
            assert(entries@.take(0) =~= Seq::empty());
            assert(object_tree(found@) =~= json_of(
                DocumentTree::Object(entries_tree(entries@.take(0))),
            )->Object_0);
            while i < entries.len()
                invariant
                    *document == Document::Object(*entries),
                    i <= entries@.len(),
                    JsonTree::Object(object_tree(found@)) == json_of(
                        DocumentTree::Object(entries_tree(entries@.take(i as int))),
                    ),
                decreases entries@.len() - i,
            {
                assert(decreases_to!(*document => document->Object_0@[i as int].1));
                let ghost before = found@;
                found.push((entries[i].0.clone(), document_to_json_value(&entries[i].1)));
                proof {
                    assert(found@.drop_last() =~= before);
                    let some = entries_tree(entries@.take(i as int));
                    let more = entries_tree(entries@.take(i + 1));
                    assert(entries@.take(i + 1).drop_last() =~= entries@.take(i as int));
                    assert(more == some.insert(entries@[i as int].0@, entries@[i as int].1.tree()));
                    assert(object_tree(found@) =~= json_of(DocumentTree::Object(more))->Object_0);
                }
                i += 1;
            }
            assert(entries@.take(i as int) =~= entries@);
            Json::Object(found)
        },
    }
}

/// The JSON text of a document, as it is shown to the user.
pub fn format_document(document: &Document) -> (text: String)
    ensures
        text@ == json_write(json_of(document.tree())),
{
    json_to_string(&document_to_json_value(document))
}

/// The JSON text of a document, as a plugin gets it.
pub fn document_to_json_string(document: &Document) -> (text: String)
    ensures
        text@ == json_write(json_of(document.tree())),
{
    json_to_string(&document_to_json_value(document))
}

/// The text that a document has for a parameter, or the message that says why
/// it has none.
pub open spec fn string_param(tree: DocumentTree, key: Seq<char>) -> Result<
    Seq<char>,
    Seq<char>,
> {
    match tree {
        DocumentTree::Object(map) => if map.contains_key(key) && map[key] is Text {
            Ok(map[key]->Text_0)
        } else {
            Err("missing or invalid parameter: "@ + key)
        },
        _ => Err("input is not an object"@),
    }
}

/// Looks up a parameter of a tool.
pub fn get_string_param<'a>(input: &'a Document, key: &str) -> (param: Result<&'a str, String>)
    ensures
        match param {
            Ok(text) => string_param(input.tree(), key@) == Ok::<Seq<char>, Seq<char>>(text@),
            Err(message) => string_param(input.tree(), key@) == Err::<Seq<char>, Seq<char>>(
                message@,
            ),
        },
{
    match input {
        Document::Object(entries) => match find_entry(entries, key) {
            Some(Document::String(text)) => Ok(text.as_str()),
            _ => Err(missing_param(key)),
        },
        _ => Err("input is not an object".to_string()),
    }
}

/// The document that the entries have for a key.
fn find_entry<'a>(entries: &'a Vec<(String, Document)>, key: &str) -> (found: Option<&'a Document>)
    ensures
        match found {
            Some(document) => entries_tree(entries@).contains_key(key@) && entries_tree(
                entries@,
            )[key@] == document.tree(),
            None => !entries_tree(entries@).contains_key(key@),
        },
{
    let mut n: usize = entries.len();
    assert(entries@.take(n as int) =~= entries@);
    while n > 0
        invariant
            n <= entries@.len(),
            ({
                let all = entries_tree(entries@);
                let some = entries_tree(entries@.take(n as int));
                &&& all.contains_key(key@) == some.contains_key(key@)
                &&& all.contains_key(key@) ==> all[key@] == some[key@]
            }),
        decreases n,
    {
        assert(entries@.take(n as int).drop_last() =~= entries@.take(n - 1));
        if same(entries[n - 1].0.as_str(), key) {
            return Some(&entries[n - 1].1);
        }
        n -= 1;
    }
    None
}

fn missing_param(key: &str) -> (message: String)
    ensures
        message@ == "missing or invalid parameter: "@ + key@,
{
    let mut message = "missing or invalid parameter: ".to_string();
    message.append(key);
    message
}

/// Each number in the value is an integer that an `i64` can hold, or a float.
pub open spec fn fits_document(tree: JsonTree) -> bool
    decreases tree,
{
    match tree {
        JsonTree::Number(NumberTree::Int(i)) => i64::MIN <= i <= i64::MAX,
        JsonTree::Number(NumberTree::Float(f)) => number_tree(f) == NumberTree::Float(f),
        JsonTree::Array(items) => forall|i: int|
            0 <= i < items.len() ==> fits_document(#[trigger] items[i]),
        JsonTree::Object(map) => forall|k: Seq<char>|
            map.contains_key(k) ==> fits_document(#[trigger] map[k]),
        _ => true,
    }
}

/// A JSON value comes back from a document as it was, as long as its integers
/// are no larger than a document keeps exactly.
pub proof fn law_document_round_trip(tree: JsonTree)
    requires
        fits_document(tree),
    ensures
        json_of(document_of(tree)) == tree,
    decreases tree,
{
    match tree {
        JsonTree::Array(items) => {
            let back = json_of(document_of(tree))->Array_0;
            assert forall|i: int| 0 <= i < items.len() implies back[i] == items[i] by {
                law_document_round_trip(items[i]);
            }
            assert(back =~= items);
        },
        JsonTree::Object(map) => {
            let back = json_of(document_of(tree))->Object_0;
            assert forall|k: Seq<char>| map.contains_key(k) implies #[trigger] back[k]
                == map[k] by {
                law_document_round_trip(map[k]);
            }
            assert(back =~= map);
        },
        _ => {},
    }
}

/// A document says what the JSON value says: of an array value by value, of an object key
/// by key.
pub proof fn law_document_says_what_the_value_says(tree: JsonTree)
    ensures
        match tree {
            JsonTree::Null => document_of(tree) is Null,
            JsonTree::Bool(b) => document_of(tree) == DocumentTree::Bool(b),
            JsonTree::Number(NumberTree::Int(i)) => {
                &&& i64::MIN <= i <= i64::MAX ==> document_of(tree) == DocumentTree::Number(
                    DocumentNumber::NegInt(i as i64),
                )
                &&& i64::MAX < i <= u64::MAX ==> document_of(tree) == DocumentTree::Number(
                    DocumentNumber::Float(Some(nearest_float(i as u64))),
                )
            },
            JsonTree::Number(NumberTree::Float(f)) => document_of(tree) == DocumentTree::Number(
                DocumentNumber::Float(Some(f)),
            ),
            JsonTree::Text(text) => document_of(tree) == DocumentTree::Text(text),
            JsonTree::Array(items) => document_of(tree) matches DocumentTree::Array(found)
                && found.len() == items.len() && forall|i: int|
                0 <= i < items.len() ==> found[i] == document_of(#[trigger] items[i]),
            JsonTree::Object(map) => document_of(tree) matches DocumentTree::Object(found)
                && found.dom() == map.dom() && forall|k: Seq<char>|
                map.contains_key(k) ==> found[k] == document_of(#[trigger] map[k]),
        },
{
    if let JsonTree::Object(map) = tree {
        let found = document_of(tree)->Object_0;
        assert(found.dom() =~= map.dom());
    }
}

/// A JSON value says what the document says: of an array value by value, of an object key
/// by key. A number that is not finite becomes zero.
pub proof fn law_value_says_what_the_document_says(tree: DocumentTree)
    ensures
        match tree {
            DocumentTree::Null => json_of(tree) is Null,
            DocumentTree::Bool(b) => json_of(tree) == JsonTree::Bool(b),
            DocumentTree::Number(DocumentNumber::PosInt(i)) => json_of(tree) == JsonTree::Number(
                NumberTree::Int(i as int),
            ),
            DocumentTree::Number(DocumentNumber::NegInt(i)) => json_of(tree) == JsonTree::Number(
                NumberTree::Int(i as int),
            ),
            DocumentTree::Number(DocumentNumber::Float(Some(f))) => json_of(tree)
                == JsonTree::Number(number_tree(f)),
            DocumentTree::Number(DocumentNumber::Float(None)) => json_of(tree) == JsonTree::Number(
                NumberTree::Int(0),
            ),
            DocumentTree::Text(text) => json_of(tree) == JsonTree::Text(text),
            DocumentTree::Array(items) => json_of(tree) matches JsonTree::Array(found)
                && found.len() == items.len() && forall|i: int|
                0 <= i < items.len() ==> found[i] == json_of(#[trigger] items[i]),
            DocumentTree::Object(map) => json_of(tree) matches JsonTree::Object(found)
                && found.dom() == map.dom() && forall|k: Seq<char>|
                map.contains_key(k) ==> found[k] == json_of(#[trigger] map[k]),
        },
{
    if let DocumentTree::Object(map) = tree {
        let found = json_of(tree)->Object_0;
        assert(found.dom() =~= map.dom());
    }
}

/// A parameter is the text that the object has for its key, as it is. Where the object has
/// none, or something else, the parameter is named as missing; what is no object has none.
pub proof fn law_parameter_is_the_text_of_its_key(
    params: Map<Seq<char>, DocumentTree>,
    key: Seq<char>,
    text: Seq<char>,
    other: DocumentTree,
)
    ensures
        string_param(DocumentTree::Object(params.insert(key, DocumentTree::Text(text))), key) == Ok::<
            Seq<char>,
            Seq<char>,
        >(text),
        string_param(DocumentTree::Object(params.remove(key)), key) == Err::<Seq<char>, Seq<char>>(
            "missing or invalid parameter: "@ + key,
        ),
        !(other is Text) ==> string_param(DocumentTree::Object(params.insert(key, other)), key)
            == Err::<Seq<char>, Seq<char>>("missing or invalid parameter: "@ + key),
        !(other is Object) ==> string_param(other, key) == Err::<Seq<char>, Seq<char>>(
            "input is not an object"@,
        ),
{
}

/// An object has for a key what its last entry of that key says.
pub proof fn law_later_parameter_counts(
    entries: Seq<(String, Document)>,
    key: String,
    value: Document,
    other: Seq<char>,
)
    ensures
        entries_tree(Seq::empty()) == Map::<Seq<char>, DocumentTree>::empty(),
        entries_tree(entries.push((key, value))) == entries_tree(entries).insert(
            key@,
            value.tree(),
        ),
{
    assert(entries.push((key, value)).drop_last() =~= entries);
}

/// What a document says: texts and numbers as they are, of an array value by value, and of
/// an object what its entries say.
pub proof fn law_document_is_read_part_by_part(document: Document)
    ensures
        match document {
            Document::Null => document.tree() is Null,
            Document::Bool(b) => document.tree() == DocumentTree::Bool(b),
            Document::Number(n) => document.tree() == DocumentTree::Number(n),
            Document::String(s) => document.tree() == DocumentTree::Text(s@),
            Document::Array(items) => document.tree() matches DocumentTree::Array(found)
                && found.len() == items@.len() && forall|i: int|
                0 <= i < items@.len() ==> found[i] == #[trigger] items@[i].tree(),
            Document::Object(entries) => document.tree() == DocumentTree::Object(
                entries_tree(entries@),
            ),
        },
{
    if let Document::Array(items) = document {
        lemma_documents(items@);
    }
}

proof fn lemma_documents(items: Seq<Document>)
    ensures
        documents_tree(items).len() == items.len(),
        forall|i: int|
            0 <= i < items.len() ==> documents_tree(items)[i] == #[trigger] items[i].tree(),
    decreases items.len(),
{
    if items.len() > 0 {
        let some = items.drop_last();
        lemma_documents(some);
        assert forall|i: int| 0 <= i < items.len() implies documents_tree(items)[i]
            == #[trigger] items[i].tree() by {
            if i < some.len() {
                assert(documents_tree(some)[i] == some[i].tree());
            }
        }
    }
}

}
