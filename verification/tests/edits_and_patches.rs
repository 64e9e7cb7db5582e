use asobi::edit_file::{edit, parse_request, EditRequest, ReadError};
use asobi::patch_file::{
    apply_hunks, parse_hunk_header, parse_hunks, patch, try_apply_hunks, PatchRequest, Patched,
};
use asobi::plugin::{output_text, read_input, write_file_report, WasmString, WriteError};

fn edit_request(path: &str, old_string: &str, new_string: &str) -> EditRequest {
    EditRequest {
        path: path.to_string(),
        old_string: old_string.to_string(),
        new_string: new_string.to_string(),
    }
}

#[test]
fn test_edit_file_replace() {
    let content = "fn main() {\n    println!(\"hello\");\n}\n";
    let request = edit_request("test.rs", "    println!(\"hello\");", "    println!(\"world\");");
    let edited = edit(&request, Ok(content.to_string())).ok().unwrap();
    assert!(edited.message.contains("replaced 1 occurrence"));
    assert!(edited.content.contains("println!(\"world\")"));
    assert!(!edited.content.contains("println!(\"hello\")"));
    assert_eq!(edited.content, "fn main() {\n    println!(\"world\");\n}\n");
}

#[test]
fn test_edit_file_not_found() {
    let request = edit_request("test.txt", "zzz", "yyy");
    let result = edit(&request, Ok("aaa bbb ccc".to_string())).err().unwrap();
    assert!(result.contains("not found"));
}

#[test]
fn test_edit_file_ambiguous() {
    let request = edit_request("test.txt", "foo", "qux");
    let result = edit(&request, Ok("foo bar foo baz foo".to_string())).err().unwrap();
    assert!(result.contains("ambiguous"));
    assert!(result.contains("found 3 occurrences in test.txt"));
}

#[test]
fn empty_text_is_inserted_before() {
    let request = edit_request("n.txt", "", "head\n");
    let edited = edit(&request, Ok("tail".to_string())).ok().unwrap();
    assert_eq!(edited.content, "head\ntail");
    assert_eq!(edited.message, "Inserted at beginning of n.txt");
    let missing = ReadError::Missing("No such file or directory (os error 2)".to_string());
    let created = edit(&request, Err(missing)).ok().unwrap();
    assert_eq!(created.content, "head\n");
    assert_eq!(created.message, "Inserted at beginning of n.txt");
}

#[test]
fn file_that_cannot_be_read_is_left_alone() {
    let request = edit_request("n.txt", "", "head\n");
    let error = edit(&request, Err(ReadError::Failed("not UTF-8".to_string()))).err().unwrap();
    assert_eq!(error, "failed to read n.txt: not UTF-8");
}

#[test]
fn matches_that_overlap_are_ambiguous() {
    let request = edit_request("n.txt", "aa", "b");
    let error = edit(&request, Ok("aaa".to_string())).err().unwrap();
    assert!(error.contains("ambiguous: found 2 occurrences in n.txt"));
    let edited = edit(&request, Ok("xaay".to_string())).ok().unwrap();
    assert_eq!(edited.content, "xby");
    let error = edit(&request, Ok("aba".to_string())).err().unwrap();
    assert!(error.contains("not found"));
}

#[test]
fn file_that_cannot_be_edited_is_told() {
    let request = edit_request("n.txt", "a", "b");
    let error = edit(&request, Err(ReadError::Failed("denied".to_string()))).err().unwrap();
    assert_eq!(error, "failed to read n.txt: denied");
    let missing = ReadError::Missing("No such file or directory (os error 2)".to_string());
    let error = edit(&request, Err(missing)).err().unwrap();
    assert_eq!(error, "failed to read n.txt: No such file or directory (os error 2)");
}

#[test]
fn edit_requests_are_read_from_json() {
    let request = parse_request(r#"{"path":"p","old_string":"o","new_string":"n"}"#).ok().unwrap();
    assert_eq!((request.path.as_str(), request.old_string.as_str(), request.new_string.as_str()), ("p", "o", "n"));
    let error = |text: &str| parse_request(text).err().unwrap();
    assert_eq!(error(r#"{"old_string":"o"}"#), "missing 'path'");
    assert_eq!(error(r#"{"path":"p"}"#), "missing 'old_string'");
    assert_eq!(error(r#"{"path":"p","old_string":"o","new_string":1}"#), "missing 'new_string'");
    assert!(error("{").starts_with("invalid JSON: "));
}

#[test]
fn test_patch_file_apply() {
    let request = PatchRequest {
        path: "test.txt".to_string(),
        patch: "@@ -2,2 +2,2 @@\n-line2\n-line3\n+LINE2\n+LINE3".to_string(),
    };
    match patch(&request, Ok("line1\nline2\nline3\nline4\n".to_string())) {
        Patched::Write { content, report } => {
            assert!(report.contains("applied 1 hunk"));
            assert!(content.contains("LINE2"));
            assert!(content.contains("LINE3"));
            assert!(!content.contains("line2"));
            assert_eq!(content, "line1\nLINE2\nLINE3\nline4\n");
        }
        _ => panic!("the patch fits"),
    }
}

#[test]
fn test_patch_file_context_mismatch() {
    let request = PatchRequest {
        path: "test.txt".to_string(),
        patch: "@@ -1,2 +1,2 @@\n-aaa\n-zzz\n+aaa\n+yyy".to_string(),
    };
    match patch(&request, Ok("aaa\nbbb\nccc\n".to_string())) {
        Patched::Failed(message) => {
            let result = output_text(Err(message));
            assert!(result.contains("mismatch") || result.contains("Error"));
        }
        _ => panic!("the patch does not fit"),
    }
}

#[test]
fn headers_of_hunks_are_read() {
    assert_eq!(parse_hunk_header("@@ -12,3 +14,5 @@ fn x"), Ok((12, 3)));
    assert_eq!(parse_hunk_header("@@ -7 +7 @@"), Ok((7, 1)));
    assert!(parse_hunk_header("@@ -x,1 +1 @@").is_err());
}

#[test]
fn reversed_patch_restores() {
    let content = "a\nb\nc\n";
    let there = parse_hunks("--- a\n+++ b\n@@ -1,3 +1,3 @@\n a\n-b\n+B\n c\n").unwrap_or_default();
    assert_eq!(there.len(), 1);
    assert_eq!(there[0].old_lines, vec!["a", "b", "c"]);
    assert_eq!(there[0].new_lines, vec!["a", "B", "c"]);
    let changed = apply_hunks(content, &there).unwrap();
    assert_eq!(changed, "a\nB\nc\n");
    let back = parse_hunks("@@ -1,3 +1,3 @@\n a\n-B\n+b\n c\n").unwrap_or_default();
    assert_eq!(apply_hunks(&changed, &back).unwrap(), content);
}

#[test]
fn removing_every_line_leaves_nothing() {
    let hunks = parse_hunks("@@ -1 +0,0 @@\n-a").unwrap_or_default();
    assert_eq!(apply_hunks("a\n", &hunks).unwrap(), "");
    let two = parse_hunks("@@ -1,2 +0,0 @@\n-a\n-b\n").unwrap_or_default();
    assert_eq!(apply_hunks("a\nb", &two).unwrap(), "");
    let first = parse_hunks("@@ -1 +0,0 @@\n-a\n").unwrap_or_default();
    assert_eq!(apply_hunks("a\n\n", &first).unwrap(), "\n");
}

#[test]
fn marker_of_a_missing_line_feed_is_no_content() {
    let hunks = parse_hunks("@@ -1 +1 @@\n-a\n\\ No newline at end of file\n+b").unwrap_or_default();
    assert_eq!(hunks.len(), 1);
    assert_eq!(hunks[0].old_start, 1);
    assert_eq!(hunks[0].old_lines, vec!["a"]);
    assert_eq!(hunks[0].new_lines, vec!["b"]);
    assert_eq!(apply_hunks("a", &hunks).unwrap(), "b");
    let both = "@@ -1,2 +1,2 @@\n x\n-a\n\\ No newline at end of file\n+b\n\\ No newline at end of file\n";
    let hunks = parse_hunks(both).unwrap_or_default();
    assert_eq!(apply_hunks("x\na", &hunks).unwrap(), "x\nb");
}

#[test]
fn reversed_hunk_gives_the_text_back() {
    for content in ["a\nb\nc\n", "a\nb\nc", "a\nb\n\n", "\nb\nc"] {
        let there = parse_hunks("@@ -2,1 +2,2 @@\n-b\n+x\n+y\n").unwrap_or_default();
        let back = parse_hunks("@@ -2,2 +2,1 @@\n-x\n-y\n+b\n").unwrap_or_default();
        let changed = apply_hunks(content, &there).unwrap();
        assert_eq!(apply_hunks(&changed, &back).unwrap(), content);
    }
}

#[test]
fn hunks_past_the_end_are_out_of_range() {
    let hunks = parse_hunks("@@ -9,1 +9,1 @@\n-x\n+y\n").unwrap_or_default();
    assert!(try_apply_hunks("a\n", &hunks).is_none());
    let request = PatchRequest {
        path: "t".to_string(),
        patch: "@@ -9,1 +9,1 @@\n-x\n+y\n".to_string(),
    };
    assert!(matches!(patch(&request, Ok("a\n".to_string())), Patched::OutOfRange));
}

#[test]
fn patches_that_cannot_be_read_are_told() {
    let request = |patch_text: &str| PatchRequest {
        path: "t".to_string(),
        patch: patch_text.to_string(),
    };
    let failed = |result: Patched| match result {
        Patched::Failed(message) => message,
        _ => panic!("a failure was expected"),
    };
    let unread = failed(patch(&request("@@ -1 +1 @@\n-a\n+b"), Err("gone".to_string())));
    assert_eq!(unread, "failed to read t: gone");
    let bad = failed(patch(&request("@@ -x +1 @@\n-a\n+b"), Ok("a\n".to_string())));
    assert!(!bad.is_empty());
}

#[test]
fn plugins_get_text_and_hand_back_text() {
    assert_eq!(read_input(b"{\"a\":1}".to_vec()), "{\"a\":1}");
    assert_eq!(read_input(vec![0xff]), "{}");
    assert_eq!(output_text(Ok("fine".to_string())), "fine");
    assert_eq!(output_text(Err("bad".to_string())), "Error: bad");
    let done = write_file_report("p", "done".to_string(), Ok(()));
    assert_eq!(done.unwrap(), "done");
    let full = write_file_report("p", String::new(), Err(WriteError::Write("full".to_string())));
    assert_eq!(full.unwrap_err(), "failed to write p: full");
    let denied = write_file_report("p", String::new(), Err(WriteError::CreateDir("no".to_string())));
    assert_eq!(denied.unwrap_err(), "failed to create dir: no");
    assert_eq!(WasmString::new(0x01020304, 5).to_bytes(), vec![4, 3, 2, 1, 5, 0, 0, 0]);
}

#[test]
fn manifests_name_the_plugins() {
    let edit_manifest: serde_json::Value =
        serde_json::from_str(&asobi::edit_file::tool_manifest()).unwrap();
    assert_eq!(edit_manifest["name"], "edit_file");
    assert_eq!(edit_manifest["input_schema"]["required"][2], "new_string");
    let patch_manifest: serde_json::Value =
        serde_json::from_str(&asobi::patch_file::tool_manifest()).unwrap();
    assert_eq!(patch_manifest["name"], "patch_file");
    assert_eq!(patch_manifest["input_schema"]["properties"]["path"]["type"], "string");
}
