//! The `edit_file` tool: replaces a string that stands once in a file.
use vstd::prelude::*;

use crate::json::{
    empty_object, field, get_text, json_parse, json_to_string, json_write, parse_json, text_field,
    text_json, text_trees, with_entry, Json, JsonTree,
};
use crate::plugin::{described_text, described_text_tree, object_schema, object_schema_tree};
use crate::text::{
    chars_of, contains_text, count_below, count_text, count_text_in, decimal, decimal_of, find_text,
    occurs_at, replace_first, replace_first_in,
};

verus! {

/// What the tool is asked to do.
pub struct EditRequest {
    pub path: String,
    pub old_string: String,
    pub new_string: String,
}

pub struct EditRequestView {
    pub path: Seq<char>,
    pub old_string: Seq<char>,
    pub new_string: Seq<char>,
}

impl View for EditRequest {
    type V = EditRequestView;

    open spec fn view(&self) -> EditRequestView {
        EditRequestView {
            path: self.path@,
            old_string: self.old_string@,
            new_string: self.new_string@,
        }
    }
}

/// The new content of the file, and what is reported once it is written.
pub struct Edited {
    pub content: String,
    pub message: String,
}

/// The request in a JSON value, or the message that says what is missing.
pub open spec fn request_in(tree: JsonTree) -> Result<EditRequestView, Seq<char>> {
    match (text_field(tree, "path"@), text_field(tree, "old_string"@), text_field(
        tree,
        "new_string"@,
    )) {
        (None, _, _) => Err("missing 'path'"@),
        (_, None, _) => Err("missing 'old_string'"@),
        (_, _, None) => Err("missing 'new_string'"@),
        (Some(path), Some(old_string), Some(new_string)) => Ok(
            EditRequestView { path, old_string, new_string },
        ),
    }
}

/// The request that a parsed input makes.
pub open spec fn parsed_request(input: Result<JsonTree, Seq<char>>) -> Result<
    EditRequestView,
    Seq<char>,
> {
    match input {
        Ok(tree) => request_in(tree),
        Err(message) => Err("invalid JSON: "@ + message),
    }
}

/// Why a file could not be read.
pub enum ReadError {
    /// There is no such file. The message is the one that the system gives.
    Missing(String),
    /// There is one, but it cannot be read as text; the message says why.
    Failed(String),
}

pub enum ReadErrorView {
    Missing(Seq<char>),
    Failed(Seq<char>),
}

impl View for ReadError {
    type V = ReadErrorView;

    open spec fn view(&self) -> ReadErrorView {
        match self {
            ReadError::Missing(message) => ReadErrorView::Missing(message@),
            ReadError::Failed(message) => ReadErrorView::Failed(message@),
        }
    }
}

/// What is said of a file that could not be read.
pub open spec fn unread_message(path: Seq<char>, error: ReadErrorView) -> Seq<char> {
    "failed to read "@ + path + ": "@ + match error {
        ReadErrorView::Missing(message) => message,
        ReadErrorView::Failed(message) => message,
    }
}

/// What an edit gives: the new content and the report, or the message that says
/// why there is none. `read` is what reading the file gave. A file that is missing
/// is created where text is to be inserted; one that cannot be read is left alone.
pub open spec fn edited(
    request: EditRequestView,
    read: Result<Seq<char>, ReadErrorView>,
) -> Result<(Seq<char>, Seq<char>), Seq<char>> {
    if request.old_string.len() == 0 {
        let report = "Inserted at beginning of "@ + request.path;
        match read {
            Ok(content) => Ok((request.new_string + content, report)),
            Err(ReadErrorView::Missing(_)) => Ok((request.new_string, report)),
            Err(error) => Err(unread_message(request.path, error)),
        }
    } else {
        match read {
            Err(error) => Err(unread_message(request.path, error)),
            Ok(content) => {
                let n = count_text(content, request.old_string);
                if n == 0 {
                    Err(
                        "old_string not found in "@ + request.path
                            + ". Make sure it matches exactly (including whitespace and indentation)."@,
                    )
                } else if n == 1 {
                    Ok(
                        (
                            replace_first(content, request.old_string, request.new_string),
                            "Edited "@ + request.path + ": replaced 1 occurrence"@,
                        ),
                    )
                } else {
                    Err(
                        "old_string is ambiguous: found "@ + decimal(n) + " occurrences in "@
                            + request.path
                            + ". Include more surrounding context to make it unique."@,
                    )
                }
            },
        }
    }
}

/// Reads the request out of a JSON value.
pub fn request_from(json: &Json) -> (request: Result<EditRequest, String>)
    ensures
        match request {
            Ok(r) => request_in(json.tree()) == Ok::<EditRequestView, Seq<char>>(r@),
            Err(message) => request_in(json.tree()) == Err::<EditRequestView, Seq<char>>(
                message@,
            ),
        },
{
    let path = match get_text(json, "path") {
        Some(text) => text.to_string(),
        None => {
            return Err("missing 'path'".to_string());
        },
    };
    let old_string = match get_text(json, "old_string") {
        Some(text) => text.to_string(),
        None => {
            return Err("missing 'old_string'".to_string());
        },
    };
    match get_text(json, "new_string") {
        Some(text) => Ok(EditRequest { path, old_string, new_string: text.to_string() }),
        None => Err("missing 'new_string'".to_string()),
    }
}

/// Reads the request out of the JSON text that the tool gets.
pub fn parse_request(input: &str) -> (request: Result<EditRequest, String>)
    ensures
        match request {
            Ok(r) => parsed_request(json_parse(input@)) == Ok::<EditRequestView, Seq<char>>(r@),
            Err(message) => parsed_request(json_parse(input@)) == Err::<
                EditRequestView,
                Seq<char>,
            >(message@),
        },
{
    match parse_json(input) {
        Ok(json) => request_from(&json),
        Err(e) => {
            let mut message = "invalid JSON: ".to_string();
            message.append(e.as_str());
            Err(message)
        },
    }
}

/// What reading a file gave: its content, or why it has none.
pub open spec fn read_view(read: Result<String, ReadError>) -> Result<Seq<char>, ReadErrorView> {
    match read {
        Ok(content) => Ok(content@),
        Err(error) => Err(error@),
    }
}

/// What is said of a file that could not be read.
fn tell_unread(path: &str, error: &ReadError) -> (message: String)
    ensures
        message@ == unread_message(path@, error@),
{
    let mut message = "failed to read ".to_string();
    message.append(path);
    message.append(": ");
    match error {
        ReadError::Missing(cause) => message.append(cause.as_str()),
        ReadError::Failed(cause) => message.append(cause.as_str()),
    }
    message
}

/// Works out the new content of a file.
pub fn edit(request: &EditRequest, read: Result<String, ReadError>) -> (result: Result<
    Edited,
    String,
>)
    ensures
        match result {
            Ok(new) => edited(request@, read_view(read)) == Ok::<
                (Seq<char>, Seq<char>),
                Seq<char>,
            >((new.content@, new.message@)),
            Err(message) => edited(request@, read_view(read)) == Err::<
                (Seq<char>, Seq<char>),
                Seq<char>,
            >(message@),
        },
{
    let path = request.path.as_str();
    if request.old_string.as_str().is_empty() {
        let mut content = request.new_string.clone();
        match read {
            Ok(existing) => content.append(existing.as_str()),
            Err(ReadError::Missing(_)) => {},
            Err(error) => return Err(tell_unread(path, &error)),
        }
        let mut message = "Inserted at beginning of ".to_string();
        message.append(path);
        return Ok(Edited { content, message });
    }
    let content = match read {
        Ok(content) => content,
        Err(error) => return Err(tell_unread(path, &error)),
    };
    let chars = chars_of(content.as_str());
    let wanted = chars_of(request.old_string.as_str());
    let n: usize = count_text_in(chars.as_slice(), wanted.as_slice());
    if n == 0 {
        let mut message = "old_string not found in ".to_string();
        message.append(path);
        message.append(
            ". Make sure it matches exactly (including whitespace and indentation).",
        );
        Err(message)
    } else if n == 1 {
        let new = chars_of(request.new_string.as_str());
        let mut message = "Edited ".to_string();
        message.append(path);
        message.append(": replaced 1 occurrence");
        Ok(
            Edited {
                content: replace_first_in(chars.as_slice(), wanted.as_slice(), new.as_slice()),
                message,
            },
        )
    } else {
        let mut message = "old_string is ambiguous: found ".to_string();
        message.append(decimal_of(n as u128).as_str());
        message.append(" occurrences in ");
        message.append(path);
        message.append(". Include more surrounding context to make it unique.");
        Err(message)
    }
}

/// What the tool says of itself.
pub open spec fn manifest_tree() -> JsonTree {
    JsonTree::Object(
        map![
            "name"@ => JsonTree::Text("edit_file"@),
            "description"@ => JsonTree::Text(
                "Edit a file by replacing a unique string with a new string. If old_string is empty, inserts new_string at the beginning of the file (or creates the file)."@
            ),
            "input_schema"@ => object_schema_tree(
                map![
                    "path"@ => described_text_tree("Path to the file to edit"@),
                    "old_string"@ => described_text_tree(
                        "The exact string to find and replace. Must match uniquely. Empty string means insert at beginning."@
                    ),
                    "new_string"@ => described_text_tree("The replacement string"@),
                ],
                seq!["path"@, "old_string"@, "new_string"@],
            ),
        ],
    )
}

/// What the tool says of itself, as a JSON value.
pub fn manifest() -> (json: Json)
    ensures
        json.tree() == manifest_tree(),
{
    let properties = with_entry(
        with_entry(
            with_entry(empty_object(), "path", described_text("Path to the file to edit")),
            "old_string",
            described_text(
                "The exact string to find and replace. Must match uniquely. Empty string means insert at beginning.",
            ),
        ),
        "new_string",
        described_text("The replacement string"),
    );
    let required: Vec<&str> = vec!["path", "old_string", "new_string"];
    assert(required@.map_values(|s: &str| s@) =~= seq!["path"@, "old_string"@, "new_string"@]);
    with_entry(
        with_entry(
            with_entry(empty_object(), "name", text_json("edit_file")),
            "description",
            text_json(
                "Edit a file by replacing a unique string with a new string. If old_string is empty, inserts new_string at the beginning of the file (or creates the file).",
            ),
        ),
        "input_schema",
        object_schema(properties, &required),
    )
}

/// What the tool says of itself, as JSON text.
pub fn tool_manifest() -> (text: String)
    ensures
        text@ == json_write(manifest_tree()),
{
    json_to_string(&manifest())
}

proof fn lemma_find_text(s: Seq<char>, pattern: Seq<char>)
    ensures
        match find_text(s, pattern) {
            Some(k) => occurs_at(s, pattern, k as int),
            None => !contains_text(s, pattern),
        },
    decreases s.len(),
{
    if !occurs_at(s, pattern, 0) {
        if s.len() > 0 {
            let rest = s.drop_first();
            lemma_find_text(rest, pattern);
            assert forall|i: int| 0 < i implies occurs_at(s, pattern, i) == occurs_at(
                rest,
                pattern,
                i - 1,
            ) by {
                if i <= s.len() - pattern.len() {
                    assert(s.subrange(i, i + pattern.len()) =~= rest.subrange(
                        i - 1,
                        i - 1 + pattern.len(),
                    ));
                }
            }
            match find_text(rest, pattern) {
                Some(k) => {
                    assert(occurs_at(s, pattern, k as int + 1));
                },
                None => {
                    assert forall|i: int| !occurs_at(s, pattern, i) by {
                        if 0 < i {
                            assert(!occurs_at(rest, pattern, i - 1));
                        }
                    }
                },
            }
        }
    }
}

/// `pattern` stands in `s` at index `i` and nowhere else.
pub open spec fn is_only_place(s: Seq<char>, pattern: Seq<char>, i: int) -> bool {
    occurs_at(s, pattern, i) && forall|j: int| #[trigger] occurs_at(s, pattern, j) ==> j == i
}

/// Where nothing is counted below `n`, `pattern` stands nowhere below it.
proof fn lemma_none_counted(s: Seq<char>, pattern: Seq<char>, n: int, i: int)
    requires
        count_below(s, pattern, n) == 0,
        i < n,
    ensures
        !occurs_at(s, pattern, i),
    decreases n,
{
    if 0 < n && i < n - 1 {
        lemma_none_counted(s, pattern, n - 1, i);
    }
}

/// Where `pattern` stands nowhere below `n`, nothing is counted.
proof fn lemma_none_to_count(s: Seq<char>, pattern: Seq<char>, n: int)
    requires
        forall|i: int| i < n ==> !#[trigger] occurs_at(s, pattern, i),
    ensures
        count_below(s, pattern, n) == 0,
    decreases n,
{
    if n > 0 {
        lemma_none_to_count(s, pattern, n - 1);
    }
}

/// Where one place is counted below `n`, this is it.
proof fn lemma_one_counted(s: Seq<char>, pattern: Seq<char>, n: int) -> (i: int)
    requires
        count_below(s, pattern, n) == 1,
    ensures
        i < n,
        occurs_at(s, pattern, i),
        forall|j: int| j < n && #[trigger] occurs_at(s, pattern, j) ==> j == i,
    decreases n,
{
    if occurs_at(s, pattern, n - 1) {
        assert forall|j: int| j < n && #[trigger] occurs_at(s, pattern, j) implies j == n - 1 by {
            if j < n - 1 {
                lemma_none_counted(s, pattern, n - 1, j);
            }
        }
        n - 1
    } else {
        let i = lemma_one_counted(s, pattern, n - 1);
        assert forall|j: int| j < n && #[trigger] occurs_at(s, pattern, j) implies j == i by {
            assert(j < n - 1);
        }
        i
    }
}

/// Where `pattern` stands at one place, one is counted.
proof fn lemma_one_to_count(s: Seq<char>, pattern: Seq<char>, n: int, i: int)
    requires
        is_only_place(s, pattern, i),
        i < n,
    ensures
        count_below(s, pattern, n) == 1,
    decreases n,
{
    if i == n - 1 {
        lemma_none_to_count(s, pattern, n - 1);
    } else {
        assert(!occurs_at(s, pattern, n - 1));
        lemma_one_to_count(s, pattern, n - 1, i);
    }
}

/// How the number of places tells what an edit finds.
proof fn lemma_count_text(s: Seq<char>, pattern: Seq<char>)
    ensures
        count_text(s, pattern) == 0 <==> !contains_text(s, pattern),
        count_text(s, pattern) == 1 <==> exists|i: int| is_only_place(s, pattern, i),
{
    let n = s.len() as int + 1;
    if count_text(s, pattern) == 0 {
        assert forall|i: int| !occurs_at(s, pattern, i) by {
            if i < n {
                lemma_none_counted(s, pattern, n, i);
            }
        }
    }
    if !contains_text(s, pattern) {
        lemma_none_to_count(s, pattern, n);
    }
    if count_text(s, pattern) == 1 {
        let i = lemma_one_counted(s, pattern, n);
        assert(is_only_place(s, pattern, i));
    }
    if exists|i: int| is_only_place(s, pattern, i) {
        let i = choose|i: int| is_only_place(s, pattern, i);
        lemma_one_to_count(s, pattern, n, i);
    }
}

/// An edit that replaces a string succeeds exactly where the string stands at one
/// place of the file and at no other, not even one that overlaps it; what is
/// before and after that place is kept.
pub proof fn law_edit_replaces_the_one_occurrence(request: EditRequestView, content: Seq<char>)
    requires
        request.old_string.len() > 0,
    ensures
        edited(request, Ok(content)) is Ok <==> exists|i: int|
            is_only_place(content, request.old_string, i),
        edited(request, Ok(content)) is Ok <==> count_text(content, request.old_string) == 1,
        count_text(content, request.old_string) == 0 <==> !contains_text(
            content,
            request.old_string,
        ),
        forall|i: int|
            #[trigger] is_only_place(content, request.old_string, i) ==> edited(
                request,
                Ok(content),
            )->Ok_0.0 == content.take(i) + request.new_string + content.skip(
                i + request.old_string.len(),
            ),
{
    let pattern = request.old_string;
    lemma_find_text(content, pattern);
    lemma_count_text(content, pattern);
    assert forall|i: int| #[trigger] is_only_place(content, pattern, i) implies edited(
        request,
        Ok(content),
    )->Ok_0.0 == content.take(i) + request.new_string + content.skip(i + pattern.len()) by {
        assert(contains_text(content, pattern));
        let k = find_text(content, pattern)->0 as int;
        assert(occurs_at(content, pattern, k));
        assert(k == i);
    }
}

/// Inserting keeps the whole file behind the new text, and never replaces one that
/// cannot be read.
pub proof fn law_insert_keeps_the_file(
    request: EditRequestView,
    read: Result<Seq<char>, ReadErrorView>,
)
    requires
        request.old_string.len() == 0,
    ensures
        match read {
            Ok(content) => edited(request, read) matches Ok((new, _)) && new == request.new_string
                + content,
            Err(ReadErrorView::Missing(_)) => edited(request, read) matches Ok((new, _)) && new
                == request.new_string,
            Err(ReadErrorView::Failed(_)) => edited(request, read) is Err,
        },
{
}

/// The places of a text in another are counted one by one, also where they overlap.
pub proof fn law_places_are_counted_one_by_one(s: Seq<char>, pattern: Seq<char>)
    requires
        pattern.len() > 0,
    ensures
        ({
            let places = Set::new(|i: int| 0 <= i < s.len() && occurs_at(s, pattern, i));
            places.finite() && count_text(s, pattern) == places.len()
        }),
{
    let n = s.len() as int;
    lemma_counted(s, pattern, n);
    assert(!occurs_at(s, pattern, n));
    assert(count_text(s, pattern) == count_below(s, pattern, n));
}

proof fn lemma_counted(s: Seq<char>, pattern: Seq<char>, n: int)
    requires
        0 <= n,
    ensures
        ({
            let places = Set::new(|i: int| 0 <= i < n && occurs_at(s, pattern, i));
            places.finite() && count_below(s, pattern, n) == places.len()
        }),
    decreases n,
{
    let places = Set::new(|i: int| 0 <= i < n && occurs_at(s, pattern, i));
    if n == 0 {
        assert(places =~= Set::empty());
    } else {
        lemma_counted(s, pattern, n - 1);
        let some = Set::new(|i: int| 0 <= i < n - 1 && occurs_at(s, pattern, i));
        if occurs_at(s, pattern, n - 1) {
            assert(places =~= some.insert(n - 1));
        } else {
            assert(places =~= some);
        }
    }
}

/// A string that stands nowhere in the file, and one that stands at several places, is not
/// replaced; the message says which it is, and of how many places.
pub proof fn law_edit_says_why_it_replaces_nothing(request: EditRequestView, content: Seq<char>)
    requires
        request.old_string.len() > 0,
    ensures
        !contains_text(content, request.old_string) ==> edited(request, Ok(content)) == Err::<
            (Seq<char>, Seq<char>),
            Seq<char>,
        >(
            "old_string not found in "@ + request.path
                + ". Make sure it matches exactly (including whitespace and indentation)."@,
        ),
        count_text(content, request.old_string) > 1 ==> edited(request, Ok(content)) == Err::<
            (Seq<char>, Seq<char>),
            Seq<char>,
        >(
            "old_string is ambiguous: found "@ + decimal(count_text(content, request.old_string))
                + " occurrences in "@ + request.path
                + ". Include more surrounding context to make it unique."@,
        ),
{
    lemma_count_text(content, request.old_string);
}

/// What is reported of an edit that is made, and of a file that cannot be read.
pub proof fn law_edit_is_reported(
    request: EditRequestView,
    read: Result<Seq<char>, ReadErrorView>,
)
    ensures
        edited(request, read) matches Ok((_, report)) ==> {
            &&& request.old_string.len() == 0 ==> report == "Inserted at beginning of "@
                + request.path
            &&& request.old_string.len() > 0 ==> report == "Edited "@ + request.path
                + ": replaced 1 occurrence"@
        },
        read matches Err(ReadErrorView::Failed(cause)) ==> edited(request, read) == Err::<
            (Seq<char>, Seq<char>),
            Seq<char>,
        >("failed to read "@ + request.path + ": "@ + cause),
        read matches Err(ReadErrorView::Missing(cause)) ==> (request.old_string.len() > 0
            ==> edited(request, read) == Err::<(Seq<char>, Seq<char>), Seq<char>>(
            "failed to read "@ + request.path + ": "@ + cause,
        )),
{
}

/// A request names the file and the two strings; a request that lacks one of them is
/// refused, and the first that it lacks is named.
pub proof fn law_request_names_file_and_strings(fields: Map<Seq<char>, JsonTree>)
    ensures
        match request_in(JsonTree::Object(fields)) {
            Ok(request) => {
                &&& fields.contains_key("path"@)
                &&& fields["path"@] == JsonTree::Text(request.path)
                &&& fields.contains_key("old_string"@)
                &&& fields["old_string"@] == JsonTree::Text(request.old_string)
                &&& fields.contains_key("new_string"@)
                &&& fields["new_string"@] == JsonTree::Text(request.new_string)
            },
            Err(message) => if !(fields.contains_key("path"@) && fields["path"@] is Text) {
                message == "missing 'path'"@
            } else if !(fields.contains_key("old_string"@) && fields["old_string"@] is Text) {
                message == "missing 'old_string'"@
            } else {
                !(fields.contains_key("new_string"@) && fields["new_string"@] is Text) && message
                    == "missing 'new_string'"@
            },
        },
        parsed_request(Ok(JsonTree::Object(fields))) == request_in(JsonTree::Object(fields)),
{
}

/// A request that is no JSON is refused with the reason, and one that is no object lacks
/// its path.
pub proof fn law_request_is_an_object(tree: JsonTree, cause: Seq<char>)
    requires
        !(tree is Object),
    ensures
        parsed_request(Err(cause)) == Err::<EditRequestView, Seq<char>>("invalid JSON: "@ + cause),
        parsed_request(Ok(tree)) == Err::<EditRequestView, Seq<char>>("missing 'path'"@),
{
}

/// The tool names itself and asks for an object with its parameters, all of which must be
/// given.
pub proof fn law_manifest_names_the_parameters()
    ensures
        field(manifest_tree(), "name"@) == Some(JsonTree::Text("edit_file"@)),
        field(manifest_tree(), "input_schema"@) matches Some(schema) && field(schema, "type"@)
            == Some(JsonTree::Text("object"@)) && field(schema, "required"@) == Some(
            JsonTree::Array(seq![JsonTree::Text("path"@), JsonTree::Text("old_string"@), JsonTree::Text("new_string"@)]),
        ),
        text_field(manifest_tree(), "description"@) is Some,
{
    reveal_strlit("name");
    reveal_strlit("description");
    reveal_strlit("input_schema");
    reveal_strlit("type");
    reveal_strlit("properties");
    reveal_strlit("required");
    assert("name"@.len() == 4 && "description"@.len() == 11 && "input_schema"@.len() == 12
        && "type"@.len() == 4 && "properties"@.len() == 10 && "required"@.len() == 8);
    let params = seq!["path"@, "old_string"@, "new_string"@];
    assert(text_trees(params) =~= seq![JsonTree::Text("path"@), JsonTree::Text("old_string"@), JsonTree::Text("new_string"@)]);
}

/// What reading a file gave is taken as it is.
pub proof fn law_read_file_is_taken_as_it_is(content: String, cause: String)
    ensures
        read_view(Ok(content)) == Ok::<Seq<char>, ReadErrorView>(content@),
        read_view(Err(ReadError::Missing(cause))) == Err::<Seq<char>, ReadErrorView>(
            ReadErrorView::Missing(cause@),
        ),
        read_view(Err(ReadError::Failed(cause))) == Err::<Seq<char>, ReadErrorView>(
            ReadErrorView::Failed(cause@),
        ),
{
}

}
