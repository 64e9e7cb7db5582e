use asobi::app::{App, ChatEntry, Focus};
use asobi::config::Permissions;
use asobi::interactive::{
    handle_terminal_event, show_sessions, Effect, Key, PastSession, TerminalEvent,
};
use asobi::screen::{is_showable, lines_shown, render, render_in, Area, Color, Line};
use asobi::tools::ToolRegistry;

fn area(height: u16) -> Area {
    Area { x: 0, y: 0, width: 80, height }
}

fn words(line: &Line) -> String {
    line.spans.iter().map(|s| s.text.as_str()).collect()
}

fn registry() -> ToolRegistry {
    ToolRegistry::new(vec![], Permissions::default()).0
}

fn press(app: &mut App, key: Key) -> Effect {
    handle_terminal_event(app, TerminalEvent::Press { key, ctrl: false }, &registry())
}

fn press_ctrl(app: &mut App, c: char) -> Effect {
    let event = TerminalEvent::Press { key: Key::Char(c), ctrl: true };
    handle_terminal_event(app, event, &registry())
}

fn type_in(app: &mut App, text: &str) {
    for c in text.chars() {
        assert!(matches!(press(app, Key::Char(c)), Effect::Nothing));
    }
}

#[test]
fn screen_is_split_into_chat_and_input() {
    let heights = |height: u16| {
        let mut app = App::new();
        let screen = render(&mut app, area(height)).unwrap();
        assert_eq!(screen.chat_area.y, 0);
        assert_eq!(screen.input_area.y, screen.chat_area.height);
        assert_eq!(screen.input_area.width, 80);
        (screen.chat_area.height, screen.input_area.height)
    };
    assert_eq!(heights(0), (0, 0));
    assert_eq!(heights(1), (1, 0));
    assert_eq!(heights(2), (1, 1));
    assert_eq!(heights(3), (1, 2));
    assert_eq!(heights(4), (1, 3));
    assert_eq!(heights(5), (2, 3));
    assert_eq!(heights(24), (21, 3));
    assert_eq!(heights(65535), (65532, 3));
}

#[test]
fn screen_may_begin_anywhere() {
    let mut app = App::new();
    app.insert_char('x');
    let screen = render(&mut app, Area { x: 5, y: 7, width: 10, height: 10 }).unwrap();
    assert_eq!(screen.chat_area, Area { x: 5, y: 7, width: 10, height: 7 });
    assert_eq!(screen.input_area, Area { x: 5, y: 14, width: 10, height: 3 });
    assert_eq!(screen.cursor, Some((7, 15)));
}

#[test]
fn chat_is_shown_line_by_line() {
    let mut app = App::new();
    app.chat.push(ChatEntry::User("hi".to_string()));
    app.chat.push(ChatEntry::AssistantText("one\ntwo\n".to_string()));
    app.chat.push(ChatEntry::ToolCall { name: "t".to_string(), input: "a\nb".to_string() });
    app.chat.push(ChatEntry::ToolResult { name: "t".to_string(), output: "x".repeat(130) });
    app.chat.push(ChatEntry::System("first\nsecond".to_string()));
    app.chat.push(ChatEntry::Error("bad".to_string()));
    app.streaming_text = "more".to_string();
    let lines = lines_shown(&app);
    let shown: Vec<String> = lines.iter().map(words).collect();
    assert_eq!(
        shown,
        vec![
            "You: hi".to_string(),
            "Agent: one".to_string(),
            "       two".to_string(),
            "  [t] a b".to_string(),
            format!("  [t result] {}...", "x".repeat(120)),
            "first".to_string(),
            "second".to_string(),
            "Error: bad".to_string(),
            "Agent: more".to_string(),
            "▌".to_string(),
        ]
    );
    assert_eq!(lines[0].spans[0].color, Some(Color::Green));
    assert!(lines[0].spans[0].bold);
    assert_eq!(lines[0].spans[1].color, None);
    assert_eq!(lines[3].spans[0].color, Some(Color::Yellow));
    assert!(lines[3].spans[0].bold);
    assert!(!lines[4].spans[0].bold);
    assert_eq!(lines[4].spans[1].color, Some(Color::DarkGray));
    assert_eq!(lines[7].spans[0].color, Some(Color::Red));
    assert_eq!(lines[9].spans[0].color, Some(Color::Cyan));
}

#[test]
fn view_follows_the_chat() {
    let mut app = App::new();
    for i in 0..30 {
        app.chat.push(ChatEntry::User(format!("{i}")));
    }
    let screen = render(&mut app, area(24)).unwrap();
    assert_eq!(app.content_height, 30);
    assert_eq!(app.viewport_height, 19);
    assert_eq!(screen.scroll_offset, 11);
    app.scroll_up();
    let screen = render(&mut app, area(24)).unwrap();
    assert_eq!(screen.scroll_offset, 8);
    let again = render(&mut app, area(24)).unwrap();
    assert_eq!(again.scroll_offset, 8);
    assert_eq!(again.lines.len(), 30);
}

#[test]
fn titles_and_borders_tell_the_state() {
    let mut app = App::new();
    let screen = render(&mut app, area(24)).unwrap();
    assert_eq!(screen.chat_title, " asobi ");
    assert_eq!(screen.input_title, " > ");
    assert_eq!(screen.input_border, Color::Cyan);
    assert_eq!(screen.chat_border, Color::DarkGray);
    app.is_streaming = true;
    app.toggle_focus();
    let screen = render(&mut app, area(24)).unwrap();
    assert_eq!(screen.input_title, " waiting... ");
    assert_eq!(screen.chat_border, Color::Cyan);
    assert_eq!(screen.cursor, None);
    app.request_quit();
    let screen = render(&mut app, area(24)).unwrap();
    assert_eq!(screen.input_title, " Press Ctrl+C/Ctrl+D again to quit ");
}

#[test]
fn cursor_counts_columns() {
    let mut app = App::new();
    for c in "aあb".chars() {
        app.insert_char(c);
    }
    let screen = render(&mut app, area(24)).unwrap();
    assert_eq!(screen.cursor, Some((5, 22)));
    assert_eq!(screen.input, "aあb");
    app.move_cursor_left();
    let screen = render(&mut app, area(24)).unwrap();
    assert_eq!(screen.cursor, Some((4, 22)));
    let screen = render_in(&mut app, area(20), Area { x: 1, y: 2, width: 9, height: 3 }, 65536 + 4);
    assert_eq!(screen.cursor, Some((6, 3)));
}

#[test]
fn screen_that_cannot_be_drawn_is_none() {
    let mut app = App::new();
    app.chat.push(ChatEntry::ToolCall {
        name: "t".to_string(),
        input: format!("x{}", "あ".repeat(40)),
    });
    assert!(!is_showable(&app));
    assert!(render(&mut app, area(24)).is_none());
    assert_eq!(app.content_height, 0);
    let mut app = App::new();
    app.input = "x".repeat(65535);
    app.cursor_pos = 65535;
    assert!(render(&mut app, area(24)).is_none());
    app.toggle_focus();
    assert!(render(&mut app, area(24)).is_some());
    app.input = "あ".to_string();
    app.cursor_pos = 1;
    let screen = render(&mut app, area(24)).unwrap();
    assert_eq!(screen.cursor, None);
    assert_eq!(screen.input, "あ");
}

#[test]
fn leaving_takes_two_requests() {
    let mut app = App::new();
    assert!(matches!(press_ctrl(&mut app, 'c'), Effect::Nothing));
    assert!(matches!(press_ctrl(&mut app, 'd'), Effect::Quit));
    let mut app = App::new();
    press_ctrl(&mut app, 'c');
    type_in(&mut app, "x");
    assert!(!app.quit_pending);
    assert!(matches!(press_ctrl(&mut app, 'c'), Effect::Nothing));
    app.toggle_focus();
    assert!(matches!(press_ctrl(&mut app, 'c'), Effect::Quit));
}

#[test]
fn keys_edit_the_input() {
    let mut app = App::new();
    type_in(&mut app, "abc");
    press(&mut app, Key::Left);
    press(&mut app, Key::Backspace);
    assert_eq!(app.input, "ac");
    press(&mut app, Key::Right);
    press_ctrl(&mut app, 'h');
    assert_eq!(app.input, "a");
    press_ctrl(&mut app, 'x');
    assert_eq!(app.input, "a");
    press_ctrl(&mut app, 'u');
    assert_eq!(app.input, "");
    press(&mut app, Key::Other);
    assert_eq!(app.input, "");
}

#[test]
fn entered_text_is_sent() {
    let mut app = App::new();
    type_in(&mut app, " hello ");
    let effect = press(&mut app, Key::Enter);
    assert!(matches!(effect, Effect::Send(t) if t == " hello "));
    assert!(app.is_streaming);
    assert_eq!(app.input, "");
    assert!(matches!(&app.chat[0], ChatEntry::User(t) if t == " hello "));
    press_ctrl(&mut app, 'p');
    assert_eq!(app.input, "");
    press_ctrl(&mut app, 'n');
    assert_eq!(app.input, "");
    app.history_prev();
    assert_eq!(app.input, " hello ");
    press_ctrl(&mut app, 'p');
    assert_eq!(app.input, " hello ");
    press_ctrl(&mut app, 'n');
    assert_eq!(app.input, " hello ");
    app.history_next();
    assert_eq!(app.input, "");
    type_in(&mut app, "   ");
    assert!(matches!(press(&mut app, Key::Enter), Effect::Nothing));
    assert_eq!(app.chat.len(), 1);
}

#[test]
fn commands_are_carried_out() {
    let mut app = App::new();
    app.total_input_tokens = u64::MAX;
    app.total_output_tokens = 1;
    type_in(&mut app, "/tools");
    assert!(matches!(press(&mut app, Key::Enter), Effect::Nothing));
    assert!(matches!(&app.chat[0], ChatEntry::System(t) if t == "4 tools available:\n  read_file - Read the contents of a file\n  write_file - Write content to a file, creating it if it doesn't exist\n  run_command - Execute a shell command and return its stdout and stderr\n  list_files - List files and directories in the specified path\n"));
    type_in(&mut app, " /usage ");
    press(&mut app, Key::Enter);
    assert!(matches!(&app.chat[1], ChatEntry::System(t) if t == "Token usage:\n  Input:  18446744073709551615\n  Output: 1\n  Total:  18446744073709551616"));
    type_in(&mut app, "/resume");
    assert!(matches!(press(&mut app, Key::Enter), Effect::ListSessions));
    type_in(&mut app, "/nope x");
    press(&mut app, Key::Enter);
    assert!(matches!(&app.chat[2], ChatEntry::Error(t) if t == "Unknown command: /nope x. Available: /tools, /usage, /resume, /quit"));
    assert!(!app.is_streaming);
    type_in(&mut app, "/quit");
    assert!(matches!(press(&mut app, Key::Enter), Effect::Quit));
}

#[test]
fn keys_scroll_while_the_chat_has_the_focus() {
    let mut app = App::new();
    app.content_height = 100;
    app.viewport_height = 10;
    app.scroll_offset = 50;
    press(&mut app, Key::Tab);
    assert_eq!(app.focus, Focus::Chat);
    press(&mut app, Key::Up);
    assert_eq!(app.scroll_offset, 47);
    press(&mut app, Key::PageUp);
    assert_eq!(app.scroll_offset, 44);
    press(&mut app, Key::Down);
    press(&mut app, Key::PageDown);
    assert_eq!(app.scroll_offset, 50);
    press(&mut app, Key::Char('x'));
    press_ctrl(&mut app, 'u');
    assert_eq!(app.input, "");
    press(&mut app, Key::Esc);
    assert_eq!(app.focus, Focus::Input);
    press(&mut app, Key::PageUp);
    assert_eq!(app.scroll_offset, 47);
    handle_terminal_event(&mut app, TerminalEvent::WheelUp, &registry());
    assert_eq!(app.scroll_offset, 44);
    handle_terminal_event(&mut app, TerminalEvent::WheelDown, &registry());
    handle_terminal_event(&mut app, TerminalEvent::Resize, &registry());
    handle_terminal_event(&mut app, TerminalEvent::Other, &registry());
    assert_eq!(app.scroll_offset, 47);
}

#[test]
fn arrows_scroll_whichever_part_has_the_focus() {
    let mut app = App::new();
    type_in(&mut app, "old");
    press(&mut app, Key::Enter);
    type_in(&mut app, "draft");
    app.content_height = 100;
    app.viewport_height = 10;
    app.scroll_offset = 50;
    press(&mut app, Key::Up);
    assert_eq!(app.scroll_offset, 47);
    press(&mut app, Key::Down);
    assert_eq!(app.scroll_offset, 50);
    assert_eq!(app.input, "draft");
    assert_eq!(app.cursor_pos, 5);
    press(&mut app, Key::Tab);
    press(&mut app, Key::Up);
    assert_eq!(app.scroll_offset, 47);
    assert_eq!(app.input, "draft");
}

#[test]
fn sessions_are_listed() {
    let mut app = App::new();
    show_sessions(&mut app, Ok(vec![]));
    assert!(matches!(&app.chat[0], ChatEntry::System(t) if t == "No previous sessions found."));
    let sessions = vec![
        PastSession { id: "a".to_string(), modified: "today".to_string() },
        PastSession { id: "b".to_string(), modified: "then".to_string() },
    ];
    show_sessions(&mut app, Ok(sessions));
    assert!(matches!(&app.chat[1], ChatEntry::System(t) if t == "Previous sessions:\n  asobi --restore a  (today)\n  asobi --restore b  (then)\n"));
    show_sessions(&mut app, Err("denied".to_string()));
    assert!(matches!(&app.chat[2], ChatEntry::Error(t) if t == "denied"));
}

#[test]
fn keys_that_leave_the_cursor_alone_need_none() {
    let mut app = App::new();
    app.input = "あ".to_string();
    app.cursor_pos = 1;
    app.toggle_focus();
    press(&mut app, Key::Up);
    press(&mut app, Key::Char('x'));
    assert_eq!(app.input, "あ");
    press(&mut app, Key::Esc);
    assert!(matches!(press(&mut app, Key::Enter), Effect::Send(t) if t == "あ"));
    assert_eq!(app.cursor_pos, 0);
}
