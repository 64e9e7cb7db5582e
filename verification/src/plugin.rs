//! What the file tools that run as plugins share: how they exchange strings with
//! their host, and how they describe their input.
use vstd::prelude::*;
use vstd::utf8::{decode_utf8, encode_utf8, valid_utf8};

use crate::json::{
    empty_object, field, text_array, text_json, text_trees, with_entry, Json, JsonTree,
};
use crate::text::{read_utf8, utf8_error};

verus! {

/// Where a string lies in the memory of a plugin.
pub struct WasmString {
    ptr: u32,
    len: u32,
}

/// Four bytes, the lowest first, as a number.
pub open spec fn little_endian(b: Seq<u8>) -> int {
    b[0] + b[1] * 256 + b[2] * 65536 + b[3] * 16777216
}

impl WasmString {
    pub closed spec fn spec_ptr(&self) -> u32 {
        self.ptr
    }

    pub closed spec fn spec_len(&self) -> u32 {
        self.len
    }

    pub fn new(ptr: u32, len: u32) -> (s: WasmString)
        ensures
            s.spec_ptr() == ptr,
            s.spec_len() == len,
    {
        WasmString { ptr, len }
    }

    /// The eight bytes in which the plugin hands the string over: the address
    /// and the length, each with the lowest byte first.
    pub fn to_bytes(&self) -> (bytes: Vec<u8>)
        ensures
            bytes@.len() == 8,
            little_endian(bytes@.take(4)) == self.spec_ptr(),
            little_endian(bytes@.skip(4)) == self.spec_len(),
    {
        let p: u32 = self.ptr;
        let n: u32 = self.len;
        let bytes: Vec<u8> = vec![
            (p % 256) as u8,
            (p / 256 % 256) as u8,
            (p / 65536 % 256) as u8,
            (p / 16777216) as u8,
            (n % 256) as u8,
            (n / 256 % 256) as u8,
            (n / 65536 % 256) as u8,
            (n / 16777216) as u8,
        ];
        assert(p / 256 / 256 == p / 65536);
        assert(p / 65536 / 256 == p / 16777216);
        assert(n / 256 / 256 == n / 65536);
        assert(n / 65536 / 256 == n / 16777216);
        bytes
    }
}

/// The string whose address and length lie at `ptr`, or the message that says
/// why there is none.
pub open spec fn wasm_string_at(data: Seq<u8>, ptr: int) -> Result<Seq<char>, Seq<char>> {
    let start = little_endian(data.subrange(ptr, ptr + 4));
    let len = little_endian(data.subrange(ptr + 4, ptr + 8));
    let bytes = data.subrange(start, start + len);
    if !(0 <= ptr && ptr + 8 <= data.len()) {
        Err("string pointer out of bounds"@)
    } else if start + len > data.len() {
        Err("string data out of bounds"@)
    } else if !valid_utf8(bytes) {
        Err("WASM returned invalid UTF-8: "@ + utf8_error(bytes))
    } else {
        Ok(decode_utf8(bytes))
    }
}

/// The number in the four bytes from index `i` on.
fn number_at(data: &[u8], i: usize) -> (n: u64)
    requires
        i + 4 <= data@.len(),
    ensures
        n == little_endian(data@.subrange(i as int, i + 4)),
        n <= u32::MAX,
{
    data[i] as u64 + data[i + 1] as u64 * 256 + data[i + 2] as u64 * 65536 + data[i + 3] as u64
        * 16777216
}

/// Reads the string whose address and length lie at `ptr` in the memory of a
/// plugin. An address in the last eight bytes that can be numbered is left out.
pub fn read_wasm_string(data: &[u8], ptr: i32) -> (text: Result<String, String>)
    requires
        !(-8 <= ptr < 0),
    ensures
        match text {
            Ok(s) => wasm_string_at(data@, ptr as int) == Ok::<Seq<char>, Seq<char>>(s@),
            Err(message) => wasm_string_at(data@, ptr as int) == Err::<Seq<char>, Seq<char>>(
                message@,
            ),
        },
{
    if ptr < 0 || (data.len() as u64) < ptr as u64 + 8 {
        return Err("string pointer out of bounds".to_string());
    }
    let at: usize = ptr as usize;
    let start: u64 = number_at(data, at);
    let len: u64 = number_at(data, at + 4);
    if start + len > data.len() as u64 {
        return Err("string data out of bounds".to_string());
    }
    let part = vstd::slice::slice_subrange(data, start as usize, (start + len) as usize);
    match read_utf8(vstd::slice::slice_to_vec(part)) {
        Ok(s) => Ok(s),
        Err(e) => {
            let mut message = "WASM returned invalid UTF-8: ".to_string();
            message.append(e.as_str());
            Err(message)
        },
    }
}

/// A string that a plugin has put into its memory, with its address and length
/// at `ptr`, is the string that the host reads there.
pub proof fn law_wasm_string_reads_back(data: Seq<u8>, ptr: int, header: Seq<u8>, s: Seq<char>)
    requires
        0 <= ptr <= data.len() - 8,
        header.len() == 8,
        data.subrange(ptr, ptr + 8) == header,
        ({
            let start = little_endian(header.take(4));
            let len = little_endian(header.skip(4));
            &&& 0 <= start
            &&& start + len <= data.len()
            &&& data.subrange(start, start + len) == encode_utf8(s)
        }),
    ensures
        wasm_string_at(data, ptr) == Ok::<Seq<char>, Seq<char>>(s),
{
    let whole = data.subrange(ptr, ptr + 8);
    assert(header.take(4) =~= data.subrange(ptr, ptr + 4));
    assert(header.skip(4) =~= data.subrange(ptr + 4, ptr + 8));
    vstd::utf8::encode_utf8_valid_utf8(s);
    vstd::utf8::encode_utf8_decode_utf8(s);
}

/// The text that a plugin is called with; an empty object where the bytes are
/// not UTF-8.
pub open spec fn input_text(bytes: Seq<u8>) -> Seq<char> {
    if valid_utf8(bytes) {
        decode_utf8(bytes)
    } else {
        "{}"@
    }
}

pub fn read_input(bytes: Vec<u8>) -> (text: String)
    ensures
        text@ == input_text(bytes@),
{
    match read_utf8(bytes) {
        Ok(text) => text,
        Err(_) => "{}".to_string(),
    }
}

/// What a plugin hands back: its report, or its error.
pub fn output_text(result: Result<String, String>) -> (text: String)
    ensures
        text@ == match result {
            Ok(output) => output@,
            Err(message) => "Error: "@ + message@,
        },
{
    match result {
        Ok(output) => output,
        Err(message) => {
            let mut text = "Error: ".to_string();
            text.append(message.as_str());
            text
        },
    }
}

/// Why a file could not be written.
pub enum WriteError {
    CreateDir(String),
    Write(String),
}

/// What is reported once the file is written, or could not be.
pub open spec fn written(
    path: Seq<char>,
    report: Seq<char>,
    outcome: Result<(), WriteError>,
) -> Result<Seq<char>, Seq<char>> {
    match outcome {
        Ok(_) => Ok(report),
        Err(WriteError::CreateDir(e)) => Err("failed to create dir: "@ + e@),
        Err(WriteError::Write(e)) => Err("failed to write "@ + path + ": "@ + e@),
    }
}

/// What is reported once the file is written, or could not be.
pub fn write_file_report(
    path: &str,
    report: String,
    outcome: Result<(), WriteError>,
) -> (result: Result<String, String>)
    ensures
        match result {
            Ok(text) => written(path@, report@, outcome) == Ok::<Seq<char>, Seq<char>>(text@),
            Err(message) => written(path@, report@, outcome) == Err::<Seq<char>, Seq<char>>(
                message@,
            ),
        },
{
    match outcome {
        Ok(_) => Ok(report),
        Err(WriteError::CreateDir(e)) => {
            let mut message = "failed to create dir: ".to_string();
            message.append(e.as_str());
            Err(message)
        },
        Err(WriteError::Write(e)) => {
            let mut message = "failed to write ".to_string();
            message.append(path);
            message.append(": ");
            message.append(e.as_str());
            Err(message)
        },
    }
}

/// The JSON schema of a text with a description.
pub open spec fn described_text_tree(description: Seq<char>) -> JsonTree {
    JsonTree::Object(
        map![
            "type"@ => JsonTree::Text("string"@),
            "description"@ => JsonTree::Text(description),
        ],
    )
}

/// The JSON schema of an object: its properties and which of them it must have.
pub open spec fn object_schema_tree(
    properties: Map<Seq<char>, JsonTree>,
    required: Seq<Seq<char>>,
) -> JsonTree {
    JsonTree::Object(
        map![
            "type"@ => JsonTree::Text("object"@),
            "properties"@ => JsonTree::Object(properties),
            "required"@ => JsonTree::Array(text_trees(required)),
        ],
    )
}

pub fn described_text(description: &str) -> (json: Json)
    ensures
        json.tree() == described_text_tree(description@),
{
    with_entry(
        with_entry(empty_object(), "type", text_json("string")),
        "description",
        text_json(description),
    )
}

pub fn object_schema(properties: Json, required: &Vec<&str>) -> (json: Json)
    requires
        properties is Object,
    ensures
        json.tree() == object_schema_tree(
            properties.tree()->Object_0,
            required@.map_values(|s: &str| s@),
        ),
{
    with_entry(
        with_entry(
            with_entry(empty_object(), "type", text_json("object")),
            "properties",
            properties,
        ),
        "required",
        text_array(required),
    )
}

/// A number has its lowest byte first.
pub proof fn law_lowest_byte_comes_first(b: Seq<u8>)
    requires
        b.len() == 4,
    ensures
        little_endian(b) == b[0] + 256 * (b[1] + 256 * (b[2] + 256 * b[3])),
{
}

/// A string whose header or whose bytes do not lie in the memory is refused, with the
/// reason.
pub proof fn law_string_outside_the_memory_is_refused(data: Seq<u8>, ptr: int)
    ensures
        ptr < 0 || ptr > data.len() - 8 ==> wasm_string_at(data, ptr) == Err::<
            Seq<char>,
            Seq<char>,
        >("string pointer out of bounds"@),
        0 <= ptr <= data.len() - 8 && little_endian(data.subrange(ptr, ptr + 4)) + little_endian(
            data.subrange(ptr + 4, ptr + 8),
        ) > data.len() ==> wasm_string_at(data, ptr) == Err::<Seq<char>, Seq<char>>(
            "string data out of bounds"@,
        ),
{
}

/// A plugin gets the text whose UTF-8 form it is called with, and an empty object where
/// there is none.
pub proof fn law_plugin_gets_its_input(text: Seq<char>, bytes: Seq<u8>)
    ensures
        input_text(encode_utf8(text)) == text,
        !valid_utf8(bytes) ==> input_text(bytes) == seq!['{', '}'],
{
    vstd::utf8::encode_utf8_valid_utf8(text);
    vstd::utf8::encode_utf8_decode_utf8(text);
    reveal_strlit("{}");
    assert("{}"@ =~= seq!['{', '}']);
}

/// The report is given as it is once the file is written; otherwise the step that failed
/// is named, with the cause.
pub proof fn law_failed_write_is_told(path: Seq<char>, report: Seq<char>, cause: String)
    ensures
        written(path, report, Ok(())) == Ok::<Seq<char>, Seq<char>>(report),
        written(path, report, Err(WriteError::CreateDir(cause))) == Err::<Seq<char>, Seq<char>>(
            "failed to create dir: "@ + cause@,
        ),
        written(path, report, Err(WriteError::Write(cause))) == Err::<Seq<char>, Seq<char>>(
            "failed to write "@ + path + ": "@ + cause@,
        ),
{
}

/// The schema of a text names its type and its description; that of an object names its
/// type, its properties and which of them must be given, in order.
pub proof fn law_schemas_name_their_parts(
    description: Seq<char>,
    properties: Map<Seq<char>, JsonTree>,
    required: Seq<Seq<char>>,
)
    ensures
        field(described_text_tree(description), "type"@) == Some(JsonTree::Text("string"@)),
        field(described_text_tree(description), "description"@) == Some(
            JsonTree::Text(description),
        ),
        field(object_schema_tree(properties, required), "type"@) == Some(
            JsonTree::Text("object"@),
        ),
        field(object_schema_tree(properties, required), "properties"@) == Some(
            JsonTree::Object(properties),
        ),
        field(object_schema_tree(properties, required), "required"@) matches Some(
            JsonTree::Array(listed),
        ) && listed.len() == required.len() && forall|i: int|
            0 <= i < required.len() ==> listed[i] == JsonTree::Text(#[trigger] required[i]),
{
    reveal_strlit("type");
    reveal_strlit("description");
    reveal_strlit("properties");
    reveal_strlit("required");
    assert("type"@.len() == 4 && "description"@.len() == 11 && "properties"@.len() == 10
        && "required"@.len() == 8);
}

/// A string that is no UTF-8 is refused with the cause.
pub proof fn law_string_must_be_text(data: Seq<u8>, ptr: int)
    requires
        0 <= ptr <= data.len() - 8,
    ensures
        ({
            let start = little_endian(data.subrange(ptr, ptr + 4));
            let len = little_endian(data.subrange(ptr + 4, ptr + 8));
            let bytes = data.subrange(start, start + len);
            &&& start + len <= data.len() && !valid_utf8(bytes) ==> wasm_string_at(data, ptr)
                == Err::<Seq<char>, Seq<char>>(
                "WASM returned invalid UTF-8: "@ + utf8_error(bytes),
            )
            &&& start + len <= data.len() && valid_utf8(bytes) ==> wasm_string_at(data, ptr)
                == Ok::<Seq<char>, Seq<char>>(decode_utf8(bytes))
        }),
{
}

}
