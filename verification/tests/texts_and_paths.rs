use std::path::{Path, PathBuf};

use asobi::app::{App, ChatEntry};
use asobi::config::Permissions;
use asobi::history::session_id_of;
use asobi::path::{
    absolute_parts_of, is_absolute_path, join_path, lies_under, parts_of, CurrentDir,
};
use asobi::screen::lines_shown;
use asobi::text::{
    byte_len_of, chars_of, contains, copy_maybe, copy_texts, count_chars_before, count_text_in,
    decimal_of, find_char_in, find_text_in, first_word_chars, has_text, is_blank, is_text_less,
    is_white_space, join_texts, lines_of, replace_char_in, replace_first_in, same,
    signed_decimal_of, starts_with, string_of, trim_chars, width_of,
};

const PATHS: [&str; 24] = [
    "", ".", "./", "..", "/", "//", "///", "a", "./a", "a/", "a/b", "a//b", "a/./b", "a/../b",
    "/a", "//a", "/a/b", "/a/b/", "/ab", "./.", "./a/.", "/./a", ".a", "é/あ",
];

fn std_absolute(path: &str) -> PathBuf {
    std::path::absolute(Path::new(path)).unwrap_or_else(|_| PathBuf::from(path))
}

#[test]
fn places_are_told_as_std_tells_them() {
    for allowed in PATHS {
        let permissions = Permissions::given(Some(vec![allowed.to_string()]), None, None, None);
        for path in PATHS {
            let expected = allowed == "/" || std_absolute(path).starts_with(std_absolute(allowed));
            assert_eq!(permissions.is_path_readable(path), expected, "{path:?} in {allowed:?}");
        }
    }
}

#[test]
fn places_without_a_current_directory_stand_for_themselves() {
    for base in PATHS {
        for path in PATHS {
            let under = lies_under(&parts_of(path), &parts_of(base));
            assert_eq!(under, Path::new(path).starts_with(base), "{path:?} under {base:?}");
            let none = lies_under(&absolute_parts_of(path, &CurrentDir::Unknown), &absolute_parts_of(base, &CurrentDir::Unknown));
            assert_eq!(none, under);
        }
    }
}

#[test]
fn places_are_joined_as_std_joins_them() {
    for base in PATHS {
        for path in PATHS {
            let expected = Path::new(base).join(path);
            assert_eq!(join_path(base, path), expected.to_str().unwrap());
        }
        assert_eq!(is_absolute_path(base), Path::new(base).is_absolute());
    }
}

#[test]
fn sessions_are_told_as_std_tells_extensions() {
    for name in ["a.jsonl", "a.b.jsonl", ".jsonl", "..jsonl", "a.jsonl.", "jsonl", "a.json", "あ.jsonl", "x.JSONL"] {
        let path = Path::new(name);
        let expected = if path.extension().is_some_and(|e| e == "jsonl") {
            Some(path.file_stem().unwrap().to_str().unwrap().to_string())
        } else {
            None
        };
        assert_eq!(session_id_of(name), expected, "{name}");
    }
}

const TEXTS: [&str; 16] = [
    "", " ", "a", " a ", "a\nb", "a\r\nb\r\n", "a\r", "\n", "\n\n", "あ い", "\u{3000}x\u{2003}",
    "\u{85}y\u{a0}", "aa aaa", "tab\tnew", "e\u{301} 𝄞", "\u{200b}z",
];

#[test]
fn texts_are_read_as_std_reads_them() {
    for text in TEXTS {
        let chars = chars_of(text);
        assert_eq!(chars, text.chars().collect::<Vec<char>>());
        assert_eq!(string_of(trim_chars(&chars)), text.trim(), "{text:?}");
        assert_eq!(is_blank(text), text.trim().is_empty());
        assert_eq!(lines_of(text), text.lines().map(|l| l.to_string()).collect::<Vec<String>>(), "{text:?}");
        let word = text.split_whitespace().next().unwrap_or("");
        assert_eq!(string_of(first_word_chars(&chars)), word, "{text:?}");
        assert_eq!(byte_len_of(text), text.len());
        assert_eq!(replace_char_in(text, '\n', ' '), text.replace('\n', " "));
        assert_eq!(count_chars_before(&chars, text.len()), chars.len());
        for c in text.chars() {
            assert_eq!(is_white_space(c), c.is_whitespace());
            assert_eq!(width_of(c), c.len_utf8());
            assert_eq!(find_char_in(&chars, c), text.chars().position(|d| d == c).unwrap());
        }
        for other in TEXTS {
            let pattern = chars_of(other);
            assert_eq!(contains(text, other), text.contains(other), "{text:?} {other:?}");
            assert_eq!(starts_with(text, other), text.starts_with(other));
            assert_eq!(same(text, other), text == other);
            assert_eq!(is_text_less(text, other), text < other);
            let found = text.find(other).map(|at| text[..at].chars().count());
            assert_eq!(find_text_in(&chars, &pattern), found);
            if !other.is_empty() {
                let places = (0..chars.len()).filter(|i| chars[*i..].starts_with(&pattern)).count();
                assert_eq!(count_text_in(&chars, &pattern), places);
                let replaced = replace_first_in(&chars, &pattern, &chars_of("<>"));
                assert_eq!(replaced, text.replacen(other, "<>", 1));
            }
        }
    }
}

#[test]
fn white_space_is_that_of_unicode() {
    for code in 0..=0x10ffffu32 {
        if let Some(c) = char::from_u32(code) {
            assert_eq!(is_white_space(c), c.is_whitespace(), "{code:x}");
        }
    }
}

#[test]
fn numbers_are_written_in_decimal() {
    for n in [0u128, 7, 10, 99, 100, u64::MAX as u128, u128::MAX] {
        assert_eq!(decimal_of(n), n.to_string());
    }
    for n in [0i32, -1, 7, -10, i32::MAX, i32::MIN] {
        assert_eq!(signed_decimal_of(n), n.to_string());
    }
}

#[test]
fn lists_of_texts() {
    let all: Vec<String> = ["a", "b", "a"].iter().map(|s| s.to_string()).collect();
    assert_eq!(copy_texts(&all), all);
    assert_eq!(join_texts(&all, ", "), "a, b, a");
    assert_eq!(join_texts(&vec![], ", "), "");
    assert!(has_text(&all, "b"));
    assert!(!has_text(&all, "c"));
    assert_eq!(copy_maybe(&Some("x".to_string())), Some("x".to_string()));
    assert_eq!(copy_maybe(&None), None);
}

#[test]
fn what_the_agent_says_is_shown_line_by_line() {
    for text in TEXTS {
        let mut app = App::new();
        app.chat.push(ChatEntry::AssistantText(text.to_string()));
        assert_eq!(lines_shown(&app).len(), text.lines().count());
    }
}
