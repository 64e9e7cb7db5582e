use asobi::conversation::{ContentBlock, Message, Role, ToolResult};
use asobi::entry::{read_entry, write_entry};
use asobi::history::{
    entry_to_message, history_of, latest_session_id, load, message_to_entry, new_session_id,
    restore, save, session_content, session_file, session_id_of, session_lines, session_path,
    sessions_dir, ContentEntry, HistoryEntry, Modified, SaveError, SessionFile, SessionRead,
};

fn text_message(role: Role, text: &str) -> Message {
    Message { role, content: vec![ContentBlock::Text(text.to_string())] }
}

fn entry(role: &str, texts: &[&str]) -> HistoryEntry {
    HistoryEntry {
        role: role.to_string(),
        content: texts.iter().map(|t| ContentEntry::Text { text: t.to_string() }).collect(),
    }
}

#[test]
fn test_new_session_id_is_uuid() {
    let id = new_session_id();
    assert!(uuid::Uuid::parse_str(&id).is_ok());
}

#[test]
fn test_message_to_entry_user() {
    let msg = text_message(Role::User, "hello");
    let entry = message_to_entry(&msg).unwrap();
    assert_eq!(entry.role, "user");
    assert_eq!(entry.content.len(), 1);
}

#[test]
fn test_message_to_entry_assistant() {
    let msg = text_message(Role::Assistant, "response");
    let entry = message_to_entry(&msg).unwrap();
    assert_eq!(entry.role, "assistant");
}

#[test]
fn test_entry_to_message_roundtrip() {
    let msg = text_message(Role::User, "test");
    let entry = message_to_entry(&msg).unwrap();
    let restored = entry_to_message(&entry).unwrap();
    assert_eq!(restored.role, Role::User);
    assert!(matches!(&restored.content[0], ContentBlock::Text(t) if t == "test"));
}

#[test]
fn test_entry_serialization_roundtrip() {
    let entry = HistoryEntry {
        role: "user".to_string(),
        content: vec![ContentEntry::Text { text: "hello world".to_string() }],
    };
    let json = write_entry(&entry);
    let deserialized = read_entry(&json).unwrap();
    assert_eq!(deserialized.role, "user");
    assert_eq!(deserialized.content.len(), 1);
}

#[test]
fn test_entry_to_message_unknown_role() {
    let entry = HistoryEntry {
        role: "system".to_string(),
        content: vec![ContentEntry::Text { text: "x".to_string() }],
    };
    assert!(entry_to_message(&entry).is_none());
}

#[test]
fn test_save_load_and_nonexistent() {
    let result = load("nonexistent-id", "/s/nonexistent-id.jsonl", SessionRead::Missing);
    assert!(result.is_err());

    let session_id = new_session_id();
    let messages =
        vec![text_message(Role::User, "question"), text_message(Role::Assistant, "answer")];
    let read = SessionRead::Read { content: session_file(&messages), parsed: vec![] };
    let loaded = load(&session_id, "/s/x.jsonl", read).unwrap();
    assert_eq!(loaded.len(), 2);
    assert_eq!(loaded[0].role, Role::User);
    assert_eq!(loaded[1].role, Role::Assistant);

    let files = vec![SessionFile {
        name: format!("{session_id}.jsonl"),
        modified: Modified::At(5),
    }];
    assert_eq!(latest_session_id(&files), Some(session_id));
}

#[test]
fn two_new_sessions_differ() {
    let id = new_session_id();
    assert_ne!(id, new_session_id());
    assert_eq!(id.len(), 36);
    assert_eq!(&id[14..15], "4");
    assert_eq!(id, id.to_lowercase());
}

#[test]
fn only_texts_are_kept() {
    let msg = Message {
        role: Role::Assistant,
        content: vec![
            ContentBlock::Other,
            ContentBlock::Text("a".to_string()),
            ContentBlock::ToolResult(ToolResult {
                tool_use_id: "1".to_string(),
                text: "r".to_string(),
                is_error: false,
            }),
            ContentBlock::Text("b".to_string()),
        ],
    };
    let kept = message_to_entry(&msg).unwrap();
    assert_eq!(kept.content.len(), 2);
    assert!(matches!(&kept.content[1], ContentEntry::Text { text } if text == "b"));
    let silent = Message { role: Role::User, content: vec![ContentBlock::Other] };
    assert!(message_to_entry(&silent).is_none());
    assert!(message_to_entry(&text_message(Role::Other, "x")).is_none());
}

#[test]
fn entry_without_content_is_no_message() {
    assert!(entry_to_message(&entry("user", &[])).is_none());
    let message = entry_to_message(&entry("assistant", &["a", "b"])).unwrap();
    assert_eq!(message.content.len(), 2);
}

#[test]
fn conversation_passes_over_what_says_nothing() {
    let kept: Vec<String> =
        [entry("user", &["q"]), entry("system", &["s"]), entry("user", &[]), entry("assistant", &["a"])]
            .iter()
            .map(write_entry)
            .collect();
    let messages = restore(&session_content(&kept), &vec![]);
    assert_eq!(messages.len(), 2);
    assert_eq!(messages[1].role, Role::Assistant);
    let kept = history_of(&vec![
        text_message(Role::User, "q"),
        text_message(Role::Other, "x"),
        text_message(Role::User, "r"),
    ]);
    assert_eq!(kept.len(), 2);
}

#[test]
fn sessions_are_kept_where_they_should_be() {
    let dir = Some("/hist".to_string());
    let xdg = Some("/xdg".to_string());
    let home = Some("/home/me".to_string());
    assert_eq!(sessions_dir(&dir, &xdg, &home), "/hist/sessions");
    assert_eq!(sessions_dir(&None, &xdg, &home), "/home/me/.asobi/sessions");
    assert_eq!(sessions_dir(&None, &xdg, &None), "/xdg/asobi/sessions");
    assert_eq!(sessions_dir(&None, &None, &home), "/home/me/.asobi/sessions");
    assert_eq!(sessions_dir(&None, &None, &None), "./sessions");
    assert_eq!(session_path("/hist/sessions", "abc"), "/hist/sessions/abc.jsonl");
}

#[test]
fn lines_of_a_session_come_back() {
    let kept = vec!["{\"a\":1}".to_string(), "{\"b\":2}".to_string()];
    let content = session_content(&kept);
    assert_eq!(content, "{\"a\":1}\n{\"b\":2}\n");
    assert_eq!(session_lines(&content), kept);
    assert_eq!(session_lines("\n  \na\r\n\nb"), vec!["a", "b"]);
    assert_eq!(session_content(&vec![]), "");
}

#[test]
fn latest_session_is_the_newest_file() {
    let file = |name: &str, modified: Modified| SessionFile { name: name.to_string(), modified };
    let files = vec![
        file("a.jsonl", Modified::At(3)),
        file("b.jsonl", Modified::At(7)),
        file("c.jsonl", Modified::At(7)),
        file("d.txt", Modified::At(9)),
        file("e.jsonl", Modified::Unreadable),
        file("f.jsonl", Modified::Unknown),
    ];
    assert_eq!(latest_session_id(&files), Some("b".to_string()));
    assert_eq!(latest_session_id(&vec![]), None);
    let old = vec![file("x.jsonl", Modified::At(-4)), file("y.jsonl", Modified::Unknown)];
    assert_eq!(latest_session_id(&old), Some("y".to_string()));
}

#[test]
fn sessions_are_told_from_other_files() {
    assert_eq!(session_id_of("abc.jsonl"), Some("abc".to_string()));
    assert_eq!(session_id_of("a.b.jsonl"), Some("a.b".to_string()));
    assert_eq!(session_id_of(".jsonl"), None);
    assert_eq!(session_id_of("abc.json"), None);
    assert_eq!(session_id_of("jsonl"), None);
}

#[test]
fn failures_of_sessions_are_told() {
    let message = load("id", "/s/id.jsonl", SessionRead::Missing).err().unwrap();
    assert_eq!(message, "session not found: id");
    let read = SessionRead::OpenFailed("denied".to_string());
    assert_eq!(load("id", "/s/id.jsonl", read).err().unwrap(), "failed to open /s/id.jsonl: denied");
    let read = SessionRead::ReadFailed("cut".to_string());
    assert_eq!(load("id", "/s/id.jsonl", read).err().unwrap(), "cut");
    assert_eq!(save("/s/id.jsonl", Ok(())), Ok(()));
    let full = save("/s/id.jsonl", Err(SaveError::Write("full".to_string())));
    assert_eq!(full, Err("failed to write to /s/id.jsonl: full".to_string()));
    let denied = save("/s/id.jsonl", Err(SaveError::CreateDir("denied".to_string())));
    assert_eq!(denied, Err("denied".to_string()));
}

fn told(message: &Message) -> Vec<&str> {
    message
        .content
        .iter()
        .map(|block| match block {
            ContentBlock::Text(text) => text.as_str(),
            _ => panic!("only texts come back"),
        })
        .collect()
}

#[test]
fn entries_are_written_as_json_lines() {
    assert_eq!(
        write_entry(&entry("user", &["hello world"])),
        "{\"role\":\"user\",\"content\":[{\"type\":\"text\",\"text\":\"hello world\"}]}"
    );
    assert_eq!(
        write_entry(&entry("assistant", &["a\n\"b\"", "c\\\u{1}あ"])),
        "{\"role\":\"assistant\",\"content\":[{\"type\":\"text\",\"text\":\"a\\n\\\"b\\\"\"},{\"type\":\"text\",\"text\":\"c\\\\\\u0001あ\"}]}"
    );
    assert_eq!(write_entry(&entry("user", &[])), "{\"role\":\"user\",\"content\":[]}");
}

#[test]
fn written_entries_are_read_back() {
    let texts = ["", "\\", "\"", "\\\"", "},{", "]}", "a\r\nb\n", "\t\u{8}\u{c}\u{1f}\u{7f}", "🦀\u{2028}"];
    let line = write_entry(&entry("us\"er", &texts));
    assert!(!line.contains('\n') && !line.contains('\r'));
    let back = read_entry(&line).unwrap();
    assert_eq!(back.role, "us\"er");
    let found: Vec<&str> =
        back.content.iter().map(|c| match c { ContentEntry::Text { text } => text.as_str() }).collect();
    assert_eq!(found, texts);
    let value = serde_json::from_str::<serde_json::Value>(&line).unwrap();
    assert_eq!(value["content"][3]["text"], "\\\"");
}

#[test]
fn lines_of_another_form_are_not_read_as_written() {
    for line in [
        "",
        "{",
        "{\"role\":\"user\"}",
        "{\"role\":\"user\",\"content\":[{\"type\":\"text\",\"text\":\"a\"}]} ",
        "{\"role\":\"user\",\"content\":[{\"type\":\"text\",\"text\":\"a\"},]}",
        "{\"role\":\"user\",\"content\":[{\"text\":\"a\",\"type\":\"text\"}]}",
        "{\"role\":\"user\", \"content\":[]}",
        "{\"role\":\"us\\xer\",\"content\":[]}",
        "{\"role\":\"user,\"content\":[]}",
        "{\"role\":5,\"content\":[]}",
    ] {
        assert!(read_entry(line).is_none());
    }
    assert!(read_entry("{\"role\":\"\\u0075ser\",\"content\":[]}").is_some());
}

#[test]
fn saved_session_gives_its_conversation_back() {
    let mut mixed = text_message(Role::Assistant, "one\n\"two\" \\ three\r\n");
    mixed.content.push(ContentBlock::Other);
    mixed.content.push(ContentBlock::Text("".to_string()));
    let messages = vec![
        text_message(Role::User, "question\n\n{\"role\":\"user\"}"),
        Message { role: Role::User, content: vec![ContentBlock::Other] },
        text_message(Role::Other, "x"),
        mixed,
    ];
    let content = session_file(&messages);
    assert_eq!(content.matches('\n').count(), 2);
    let read = SessionRead::Read { content, parsed: vec![Some(entry("user", &["other"]))] };
    let loaded = load("id", "/s/id.jsonl", read).unwrap();
    assert_eq!(loaded.len(), 2);
    assert_eq!(loaded[0].role, Role::User);
    assert_eq!(told(&loaded[0]), vec!["question\n\n{\"role\":\"user\"}"]);
    assert_eq!(loaded[1].role, Role::Assistant);
    assert_eq!(told(&loaded[1]), vec!["one\n\"two\" \\ three\r\n", ""]);
    assert_eq!(session_file(&loaded), session_file(&messages));
    assert_eq!(session_file(&vec![]), "");
}

#[test]
fn lines_that_hold_no_entry_are_passed_over() {
    let content = "not json\n\n{\"content\":[{\"text\":\"a\",\"type\":\"text\"}],\"role\":\"user\"}\n5";
    let parsed = vec![None, Some(entry("user", &["a"])), None];
    let messages = restore(content, &parsed);
    assert_eq!(messages.len(), 1);
    assert_eq!(told(&messages[0]), vec!["a"]);
    assert!(restore(content, &vec![]).is_empty());
    let wrong = vec![None, Some(entry("system", &["a"])), Some(entry("assistant", &[]))];
    assert!(restore(content, &wrong).is_empty());
}
