use asobi::agent::AgentEvent;
use asobi::app::{is_truncatable, truncate, App, ChatEntry, Focus};
use asobi::conversation::{ContentBlock, Message, Role, ToolResult};

#[test]
fn test_insert_and_delete_char() {
    let mut app = App::new();
    app.insert_char('a');
    app.insert_char('b');
    app.insert_char('c');
    assert_eq!(app.input, "abc");
    assert_eq!(app.cursor_pos, 3);

    app.delete_char();
    assert_eq!(app.input, "ab");
    assert_eq!(app.cursor_pos, 2);
}

#[test]
fn test_insert_multibyte() {
    let mut app = App::new();
    app.insert_char('あ');
    app.insert_char('い');
    assert_eq!(app.input, "あい");
    app.delete_char();
    assert_eq!(app.input, "あ");
}

#[test]
fn test_take_input() {
    let mut app = App::new();
    app.insert_char('x');
    let taken = app.take_input();
    assert_eq!(taken, "x");
    assert_eq!(app.input, "");
    assert_eq!(app.cursor_pos, 0);
}

#[test]
fn test_cursor_movement() {
    let mut app = App::new();
    app.insert_char('a');
    app.insert_char('b');
    app.insert_char('c');
    assert_eq!(app.cursor_pos, 3);

    app.move_cursor_left();
    assert_eq!(app.cursor_pos, 2);
    app.move_cursor_left();
    assert_eq!(app.cursor_pos, 1);
    app.move_cursor_right();
    assert_eq!(app.cursor_pos, 2);
}

#[test]
fn test_handle_agent_event_text() {
    let mut app = App::new();
    app.is_streaming = true;
    app.handle_agent_event(AgentEvent::Text("hello ".into()));
    app.handle_agent_event(AgentEvent::Text("world".into()));
    assert_eq!(app.streaming_text, "hello world");

    app.handle_agent_event(AgentEvent::TurnEnd);
    assert!(app.streaming_text.is_empty());
    assert_eq!(app.chat.len(), 1);
    assert!(matches!(&app.chat[0], ChatEntry::AssistantText(t) if t == "hello world"));
    assert!(!app.is_streaming);
}

#[test]
fn test_handle_agent_event_tool() {
    let mut app = App::new();
    app.is_streaming = true;
    app.handle_agent_event(AgentEvent::ToolCall {
        name: "read_file".into(),
        input: r#"{"path":"/tmp"}"#.into(),
    });
    app.handle_agent_event(AgentEvent::ToolResult {
        name: "read_file".into(),
        output: "contents".into(),
    });
    assert_eq!(app.chat.len(), 2);
    assert!(matches!(&app.chat[0], ChatEntry::ToolCall { name, .. } if name == "read_file"));
}

#[test]
fn test_handle_agent_event_error() {
    let mut app = App::new();
    app.is_streaming = true;
    app.handle_agent_event(AgentEvent::Error("something went wrong".into()));
    assert!(!app.is_streaming);
    assert!(matches!(&app.chat[0], ChatEntry::Error(msg) if msg.contains("something went wrong")));
}

#[test]
fn test_scroll() {
    let mut app = App::new();
    app.content_height = 100;
    app.viewport_height = 20;
    app.scroll_offset = 50;

    app.scroll_up();
    assert_eq!(app.scroll_offset, 47);

    app.scroll_down();
    assert_eq!(app.scroll_offset, 50);
}

#[test]
fn test_truncate_short() {
    assert_eq!(truncate("hello", 10), "hello");
}

#[test]
fn test_truncate_long() {
    let result = truncate("hello world this is long", 10);
    assert_eq!(result, "hello worl...");
}

#[test]
fn test_truncate_newlines() {
    let result = truncate("line1\nline2\nline3", 100);
    assert_eq!(result, "line1 line2 line3");
}

#[test]
fn test_request_quit_double_press() {
    let mut app = App::new();
    assert!(!app.request_quit());
    assert!(app.quit_pending);
    assert!(app.request_quit());
}

#[test]
fn test_reset_quit_pending() {
    let mut app = App::new();
    app.request_quit();
    assert!(app.quit_pending);
    app.reset_quit_pending();
    assert!(!app.quit_pending);
    assert!(!app.request_quit());
}

#[test]
fn test_clear_input() {
    let mut app = App::new();
    app.insert_char('a');
    app.insert_char('b');
    app.insert_char('c');
    app.clear_input();
    assert_eq!(app.input, "");
    assert_eq!(app.cursor_pos, 0);
}

#[test]
fn test_input_history_navigation() {
    let mut app = App::new();

    app.input = "first".into();
    app.cursor_pos = 5;
    app.take_input();

    app.input = "second".into();
    app.cursor_pos = 6;
    app.take_input();

    app.input = "third".into();
    app.cursor_pos = 5;
    app.take_input();

    assert_eq!(app.input, "");

    app.history_prev();
    assert_eq!(app.input, "third");
    app.history_prev();
    assert_eq!(app.input, "second");
    app.history_prev();
    assert_eq!(app.input, "first");
    app.history_prev();
    assert_eq!(app.input, "first");

    app.history_next();
    assert_eq!(app.input, "second");
    app.history_next();
    assert_eq!(app.input, "third");
    app.history_next();
    assert_eq!(app.input, "");
    app.history_next();
    assert_eq!(app.input, "");
}

#[test]
fn test_input_history_preserves_draft() {
    let mut app = App::new();

    app.input = "old".into();
    app.cursor_pos = 3;
    app.take_input();

    app.input = "drafting".into();
    app.cursor_pos = 8;

    app.history_prev();
    assert_eq!(app.input, "old");

    app.history_next();
    assert_eq!(app.input, "drafting");
}

#[test]
fn test_input_history_empty() {
    let mut app = App::new();
    app.history_prev();
    assert_eq!(app.input, "");
    app.history_next();
    assert_eq!(app.input, "");
}

#[test]
fn test_take_input_adds_to_history() {
    let mut app = App::new();
    app.input = "hello".into();
    app.cursor_pos = 5;
    app.take_input();
    assert_eq!(app.input_history, vec!["hello"]);
}

#[test]
fn test_take_input_skips_empty() {
    let mut app = App::new();
    app.input = "   ".into();
    app.cursor_pos = 3;
    app.take_input();
    assert!(app.input_history.is_empty());
}

#[test]
fn new_app_follows_the_chat_and_types_into_the_input() {
    let app = App::new();
    assert!(app.autoscroll);
    assert_eq!(app.focus, Focus::Input);
    assert!(app.chat.is_empty());
    assert_eq!(app.history_index, None);
}

#[test]
fn inserting_goes_in_at_the_cursor() {
    let mut app = App::new();
    app.insert_char('あ');
    app.insert_char('う');
    app.move_cursor_left();
    assert_eq!(app.cursor_pos, 3);
    app.insert_char('i');
    assert_eq!(app.input, "あiう");
    assert_eq!(app.cursor_pos, 4);
    app.delete_char();
    assert_eq!(app.input, "あう");
    assert_eq!(app.cursor_pos, 3);
}

#[test]
fn deleting_at_the_start_does_nothing() {
    let mut app = App::new();
    app.insert_char('é');
    app.move_cursor_left();
    app.move_cursor_left();
    app.delete_char();
    assert_eq!(app.input, "é");
    assert_eq!(app.cursor_pos, 0);
}

#[test]
fn cursor_stays_at_the_end() {
    let mut app = App::new();
    app.insert_char('𝄞');
    assert_eq!(app.cursor_pos, 4);
    app.move_cursor_right();
    assert_eq!(app.cursor_pos, 4);
    app.move_cursor_left();
    assert_eq!(app.cursor_pos, 0);
    app.move_cursor_right();
    assert_eq!(app.cursor_pos, 4);
}

#[test]
fn history_shows_texts_of_known_roles() {
    let mut app = App::new();
    app.autoscroll = false;
    let messages = vec![
        Message { role: Role::User, content: vec![ContentBlock::Text("hi".to_string())] },
        Message {
            role: Role::Assistant,
            content: vec![
                ContentBlock::Text("hello".to_string()),
                ContentBlock::ToolResult(ToolResult {
                    tool_use_id: "1".to_string(),
                    text: "x".to_string(),
                    is_error: false,
                }),
                ContentBlock::Other,
            ],
        },
        Message { role: Role::Other, content: vec![ContentBlock::Text("no".to_string())] },
    ];
    app.load_history(&messages);
    assert_eq!(app.chat.len(), 2);
    assert!(matches!(&app.chat[0], ChatEntry::User(t) if t == "hi"));
    assert!(matches!(&app.chat[1], ChatEntry::AssistantText(t) if t == "hello"));
    assert!(app.autoscroll);
}

#[test]
fn tool_call_ends_what_was_streamed() {
    let mut app = App::new();
    app.handle_agent_event(AgentEvent::Text("thinking".into()));
    app.handle_agent_event(AgentEvent::ToolCall { name: "t".into(), input: "{}".into() });
    assert_eq!(app.chat.len(), 2);
    assert!(matches!(&app.chat[0], ChatEntry::AssistantText(t) if t == "thinking"));
    assert_eq!(app.streaming_text, "");
}

#[test]
fn usage_adds_up() {
    let mut app = App::new();
    app.handle_agent_event(AgentEvent::Usage { input_tokens: 10, output_tokens: 3 });
    app.handle_agent_event(AgentEvent::Usage { input_tokens: 5, output_tokens: u64::MAX });
    assert_eq!(app.total_input_tokens, 15);
    assert_eq!(app.total_output_tokens, u64::MAX);
    assert!(app.chat.is_empty());
}

#[test]
fn scrolling_stops_at_both_ends() {
    let mut app = App::new();
    app.content_height = 30;
    app.viewport_height = 20;
    app.scroll_offset = 2;
    app.scroll_up();
    assert_eq!(app.scroll_offset, 0);
    assert!(!app.autoscroll);
    app.scroll_down();
    app.scroll_down();
    app.scroll_down();
    assert_eq!(app.scroll_offset, 9);
    assert!(!app.autoscroll);
    app.scroll_down();
    assert_eq!(app.scroll_offset, 10);
    assert!(app.autoscroll);
}

#[test]
fn scrolling_down_a_short_chat_stays_at_the_top() {
    let mut app = App::new();
    app.content_height = 3;
    app.viewport_height = 20;
    app.autoscroll = false;
    app.scroll_down();
    assert_eq!(app.scroll_offset, 0);
    assert!(app.autoscroll);
}

#[test]
fn resizing_changes_nothing() {
    let mut app = App::new();
    app.scroll_offset = 7;
    app.on_resize();
    assert_eq!(app.scroll_offset, 7);
    assert!(app.autoscroll);
}

#[test]
fn focus_toggles() {
    let mut app = App::new();
    app.toggle_focus();
    assert_eq!(app.focus, Focus::Chat);
    app.toggle_focus();
    assert_eq!(app.focus, Focus::Input);
}

#[test]
fn cutting_inside_a_character_is_told() {
    assert!(is_truncatable("あい", 3));
    assert!(!is_truncatable("あい", 4));
    assert!(is_truncatable("あい", 6));
    assert_eq!(truncate("あい", 3), "あ...");
    assert_eq!(truncate("あい", 6), "あい");
    assert_eq!(truncate("", 0), "");
}
