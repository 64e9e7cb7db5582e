//! The interactive mode: what keys, the mouse and commands do.
use vstd::prelude::*;

use crate::app::{App, AppView, ChatEntry, ChatEntryView, Focus};
use crate::text::{
    byte_len, chars_of, decimal, decimal_of, is_space, is_spaces, law_blank_is_all_white_space,
    law_trim_takes_white_space_away, same, starts_with, string_of, trim, trim_chars, trim_end,
    trim_start,
};
use crate::tools::{
    builtin_specs, plugin_spec, spec_views, RegistryView, ToolRegistry, ToolSpec, ToolSpecView,
};
use crate::wasm_tool::WasmToolView;

verus! {

/// A key, as far as it is told from others.
#[derive(Debug, Clone, Copy, PartialEq, Eq, Structural)]
pub enum Key {
    Char(char),
    Enter,
    Tab,
    Esc,
    Backspace,
    Left,
    Right,
    Up,
    Down,
    PageUp,
    PageDown,
    Other,
}

/// Something that the terminal tells.
#[derive(Debug, Clone, Copy, PartialEq, Eq, Structural)]
pub enum TerminalEvent {
    /// A key was pressed, with or without the control key.
    Press { key: Key, ctrl: bool },
    WheelUp,
    WheelDown,
    Resize,
    Other,
}

/// What is left to do outside the state of the screen.
pub enum Effect {
    Nothing,
    Quit,
    /// Hand the text to the agent.
    Send(String),
    /// Look up the sessions and show them.
    ListSessions,
}

pub enum EffectView {
    Nothing,
    Quit,
    Send(Seq<char>),
    ListSessions,
}

impl View for Effect {
    type V = EffectView;

    open spec fn view(&self) -> EffectView {
        match self {
            Effect::Nothing => EffectView::Nothing,
            Effect::Quit => EffectView::Quit,
            Effect::Send(text) => EffectView::Send(text@),
            Effect::ListSessions => EffectView::ListSessions,
        }
    }
}

/// The tools that the model is told of.
pub open spec fn all_specs(registry: RegistryView) -> Seq<ToolSpecView> {
    builtin_specs() + registry.wasm_tools.map_values(|t: WasmToolView| plugin_spec(t))
}

/// One line for each tool.
pub open spec fn tool_lines(tools: Seq<ToolSpecView>) -> Seq<char>
    decreases tools.len(),
{
    if tools.len() == 0 {
        seq![]
    } else {
        tool_lines(tools.drop_last()) + "  "@ + tools.last().name + " - "@
            + tools.last().description + "\n"@
    }
}

/// What `/tools` shows.
pub open spec fn tools_text(tools: Seq<ToolSpecView>) -> Seq<char> {
    decimal(tools.len()) + " tools available:\n"@ + tool_lines(tools)
}

/// What `/usage` shows.
pub open spec fn usage_text(input_tokens: u64, output_tokens: u64) -> Seq<char> {
    "Token usage:\n  Input:  "@ + decimal(input_tokens as nat) + "\n  Output: "@ + decimal(
        output_tokens as nat,
    ) + "\n  Total:  "@ + decimal((input_tokens + output_tokens) as nat)
}

/// What is said of a command that there is not.
pub open spec fn unknown_text(command: Seq<char>) -> Seq<char> {
    "Unknown command: "@ + command + ". Available: /tools, /usage, /resume, /quit"@
}

/// What entering the input does: it is a command where it begins with a slash,
/// and else what the user says, unless it is blank.
pub open spec fn entered(app: AppView, registry: RegistryView) -> (AppView, EffectView) {
    let taken = app.taken();
    let command = trim(app.input);
    if command == "/quit"@ {
        (taken, EffectView::Quit)
    } else if command == "/tools"@ {
        (
            taken.showing(ChatEntryView::System(tools_text(all_specs(registry)))),
            EffectView::Nothing,
        )
    } else if command == "/usage"@ {
        (
            taken.showing(
                ChatEntryView::System(
                    usage_text(app.total_input_tokens, app.total_output_tokens),
                ),
            ),
            EffectView::Nothing,
        )
    } else if command == "/resume"@ {
        (taken, EffectView::ListSessions)
    } else if "/"@.is_prefix_of(command) {
        (taken.showing(ChatEntryView::Error(unknown_text(command))), EffectView::Nothing)
    } else if command.len() > 0 {
        (
            AppView { is_streaming: true, ..taken.showing(ChatEntryView::User(app.input)) },
            EffectView::Send(app.input),
        )
    } else {
        (taken, EffectView::Nothing)
    }
}

/// What a key does while the chat has the focus.
pub open spec fn pressed_in_chat(app: AppView, key: Key) -> AppView {
    match key {
        Key::Up => app.scrolled_up(),
        Key::Down => app.scrolled_down(),
        Key::PageUp => app.scrolled_up(),
        Key::PageDown => app.scrolled_down(),
        _ => app,
    }
}

/// What a key does together with the control key while the input has the focus:
/// H deletes and U clears.
pub open spec fn pressed_with_ctrl(app: AppView, key: Key) -> AppView {
    if key == Key::Char('h') {
        app.deleted()
    } else if key == Key::Char('u') {
        AppView { input: Seq::empty(), cursor_pos: 0, ..app }
    } else {
        app
    }
}

/// What a key does while the input has the focus.
pub open spec fn pressed_in_input(app: AppView, key: Key, registry: RegistryView) -> (
    AppView,
    EffectView,
) {
    match key {
        Key::Enter => entered(app, registry),
        Key::Char(c) => (app.inserted(c), EffectView::Nothing),
        Key::Backspace => (app.deleted(), EffectView::Nothing),
        Key::Left => (app.moved_left(), EffectView::Nothing),
        Key::Right => (app.moved_right(), EffectView::Nothing),
        Key::Up => (app.scrolled_up(), EffectView::Nothing),
        Key::Down => (app.scrolled_down(), EffectView::Nothing),
        Key::PageUp => (app.scrolled_up(), EffectView::Nothing),
        Key::PageDown => (app.scrolled_down(), EffectView::Nothing),
        _ => (app, EffectView::Nothing),
    }
}

/// The keys that ask to leave.
pub open spec fn asks_to_quit(key: Key, ctrl: bool) -> bool {
    ctrl && (key == Key::Char('c') || key == Key::Char('d'))
}

/// The key changes the input at the cursor or moves the cursor.
pub open spec fn needs_cursor(app: AppView, key: Key, ctrl: bool) -> bool {
    app.focus == Focus::Input && if ctrl {
        key == Key::Char('h')
    } else {
        match key {
            Key::Char(_) => true,
            Key::Backspace => true,
            Key::Left => true,
            Key::Right => app.cursor_pos < byte_len(app.input),
            _ => false,
        }
    }
}

/// What a key does.
pub open spec fn pressed(app: AppView, key: Key, ctrl: bool, registry: RegistryView) -> (
    AppView,
    EffectView,
) {
    if asks_to_quit(key, ctrl) {
        (
            AppView { quit_pending: true, ..app },
            if app.quit_pending {
                EffectView::Quit
            } else {
                EffectView::Nothing
            },
        )
    } else {
        let app = AppView { quit_pending: false, ..app };
        if key == Key::Tab {
            (
                AppView {
                    focus: match app.focus {
                        Focus::Input => Focus::Chat,
                        Focus::Chat => Focus::Input,
                    },
                    ..app
                },
                EffectView::Nothing,
            )
        } else if key == Key::Esc {
            (AppView { focus: Focus::Input, ..app }, EffectView::Nothing)
        } else if app.focus == Focus::Chat {
            (pressed_in_chat(app, key), EffectView::Nothing)
        } else if ctrl {
            (pressed_with_ctrl(app, key), EffectView::Nothing)
        } else {
            pressed_in_input(app, key, registry)
        }
    }
}

/// What an event of the terminal does.
pub open spec fn after_terminal_event(
    app: AppView,
    event: TerminalEvent,
    registry: RegistryView,
) -> (AppView, EffectView) {
    match event {
        TerminalEvent::Press { key, ctrl } => pressed(app, key, ctrl, registry),
        TerminalEvent::WheelUp => (app.scrolled_up(), EffectView::Nothing),
        TerminalEvent::WheelDown => (app.scrolled_down(), EffectView::Nothing),
        TerminalEvent::Resize => (app, EffectView::Nothing),
        TerminalEvent::Other => (app, EffectView::Nothing),
    }
}

/// What `/tools` shows.
fn describe_tools(tools: &Vec<ToolSpec>) -> (text: String)
    ensures
        text@ == tools_text(spec_views(tools@)),
{
    let ghost all = spec_views(tools@);
    let mut text = decimal_of(tools.len() as u128);
    text.append(" tools available:\n");
    let ghost head = text@;
    let mut i: usize = 0;
    assert(all.take(0) =~= Seq::empty());
    assert(text@ =~= head + tool_lines(all.take(0)));
    while i < tools.len()
        invariant
            all == spec_views(tools@),
            i <= tools@.len(),
            text@ == head + tool_lines(all.take(i as int)),
        decreases tools@.len() - i,
    {
        assert(all.take(i + 1).drop_last() =~= all.take(i as int));
        assert(all.take(i + 1).last() == tools@[i as int]@);
        text.append("  ");
        text.append(tools[i].name.as_str());
        text.append(" - ");
        text.append(tools[i].description.as_str());
        text.append("\n");
        assert(text@ =~= head + tool_lines(all.take(i + 1)));
        i += 1;
    }
    assert(all.take(i as int) =~= all);
    text
}

/// What `/usage` shows.
fn describe_usage(input_tokens: u64, output_tokens: u64) -> (text: String)
    ensures
        text@ == usage_text(input_tokens, output_tokens),
{
    let total: u128 = input_tokens as u128 + output_tokens as u128;
    let mut text = "Token usage:\n  Input:  ".to_string();
    text.append(decimal_of(input_tokens as u128).as_str());
    text.append("\n  Output: ");
    text.append(decimal_of(output_tokens as u128).as_str());
    text.append("\n  Total:  ");
    text.append(decimal_of(total).as_str());
    text
}

/// Enters the input.
pub fn enter(app: &mut App, registry: &ToolRegistry) -> (effect: Effect)
    ensures
        (final(app)@, effect@) == entered(old(app)@, registry@),
        final(app)@.wf(),
{
    let input = app.take_input();
    let chars = chars_of(input.as_str());
    let command = string_of(trim_chars(chars.as_slice()));
    if same(command.as_str(), "/quit") {
        Effect::Quit
    } else if same(command.as_str(), "/tools") {
        let text = describe_tools(&registry.tool_definitions());
        app.show(ChatEntry::System(text));
        Effect::Nothing
    } else if same(command.as_str(), "/usage") {
        let text = describe_usage(app.total_input_tokens, app.total_output_tokens);
        app.show(ChatEntry::System(text));
        Effect::Nothing
    } else if same(command.as_str(), "/resume") {
        Effect::ListSessions
    } else if starts_with(command.as_str(), "/") {
        let mut text = "Unknown command: ".to_string();
        text.append(command.as_str());
        text.append(". Available: /tools, /usage, /resume, /quit");
        app.show(ChatEntry::Error(text));
        Effect::Nothing
    } else if !command.as_str().is_empty() {
        app.show(ChatEntry::User(input.clone()));
        app.is_streaming = true;
        Effect::Send(input)
    } else {
        Effect::Nothing
    }
}

fn press_in_chat(app: &mut App, key: Key)
    ensures
        final(app)@ == pressed_in_chat(old(app)@, key),
        old(app)@.wf() ==> final(app)@.wf(),
{
    match key {
        Key::Up => app.scroll_up(),
        Key::Down => app.scroll_down(),
        Key::PageUp => app.scroll_up(),
        Key::PageDown => app.scroll_down(),
        _ => {},
    }
}

fn press_with_ctrl(app: &mut App, key: Key)
    requires
        key == Key::Char('h') ==> old(app)@.has_cursor(),
    ensures
        final(app)@ == pressed_with_ctrl(old(app)@, key),
        old(app)@.wf() ==> final(app)@.wf(),
{
    match key {
        Key::Char('h') => app.delete_char(),
        Key::Char('u') => app.clear_input(),
        _ => {},
    }
}

fn press_in_input(app: &mut App, key: Key, registry: &ToolRegistry) -> (effect: Effect)
    requires
        old(app)@.focus == Focus::Input,
        needs_cursor(old(app)@, key, false) ==> old(app)@.has_cursor(),
    ensures
        (final(app)@, effect@) == pressed_in_input(old(app)@, key, registry@),
        old(app)@.wf() ==> final(app)@.wf(),
{
    match key {
        Key::Enter => return enter(app, registry),
        Key::Char(c) => app.insert_char(c),
        Key::Backspace => app.delete_char(),
        Key::Left => app.move_cursor_left(),
        Key::Right => app.move_cursor_right(),
        Key::Up => app.scroll_up(),
        Key::Down => app.scroll_down(),
        Key::PageUp => app.scroll_up(),
        Key::PageDown => app.scroll_down(),
        _ => {},
    }
    Effect::Nothing
}

/// Does what a key does.
pub fn press(app: &mut App, key: Key, ctrl: bool, registry: &ToolRegistry) -> (effect: Effect)
    requires
        needs_cursor(old(app)@, key, ctrl) ==> old(app)@.has_cursor(),
    ensures
        (final(app)@, effect@) == pressed(old(app)@, key, ctrl, registry@),
        old(app)@.wf() ==> final(app)@.wf(),
{
    if ctrl && (key == Key::Char('c') || key == Key::Char('d')) {
        if app.request_quit() {
            return Effect::Quit;
        }
        return Effect::Nothing;
    }
    app.reset_quit_pending();
    if key == Key::Tab {
        app.toggle_focus();
        Effect::Nothing
    } else if key == Key::Esc {
        app.focus = Focus::Input;
        Effect::Nothing
    } else if app.focus == Focus::Chat {
        press_in_chat(app, key);
        Effect::Nothing
    } else if ctrl {
        press_with_ctrl(app, key);
        Effect::Nothing
    } else {
        press_in_input(app, key, registry)
    }
}

/// Does what an event of the terminal does.
pub fn handle_terminal_event(
    app: &mut App,
    event: TerminalEvent,
    registry: &ToolRegistry,
) -> (effect: Effect)
    requires
        event matches TerminalEvent::Press { key, ctrl } ==> needs_cursor(old(app)@, key, ctrl)
            ==> old(app)@.has_cursor(),
    ensures
        (final(app)@, effect@) == after_terminal_event(old(app)@, event, registry@),
        old(app)@.wf() ==> final(app)@.wf(),
{
    match event {
        TerminalEvent::Press { key, ctrl } => return press(app, key, ctrl, registry),
        TerminalEvent::WheelUp => app.scroll_up(),
        TerminalEvent::WheelDown => app.scroll_down(),
        TerminalEvent::Resize => app.on_resize(),
        TerminalEvent::Other => {},
    }
    Effect::Nothing
}

/// A session that can be continued, and when it was changed.
pub struct PastSession {
    pub id: String,
    pub modified: String,
}

pub struct PastSessionView {
    pub id: Seq<char>,
    pub modified: Seq<char>,
}

impl View for PastSession {
    type V = PastSessionView;

    open spec fn view(&self) -> PastSessionView {
        PastSessionView { id: self.id@, modified: self.modified@ }
    }
}

pub open spec fn past_views(sessions: Seq<PastSession>) -> Seq<PastSessionView> {
    sessions.map_values(|s: PastSession| s@)
}

/// One line for each session.
pub open spec fn session_lines_text(sessions: Seq<PastSessionView>) -> Seq<char>
    decreases sessions.len(),
{
    if sessions.len() == 0 {
        seq![]
    } else {
        session_lines_text(sessions.drop_last()) + "  asobi --restore "@ + sessions.last().id
            + "  ("@ + sessions.last().modified + ")\n"@
    }
}

/// What `/resume` shows.
pub open spec fn sessions_entry(sessions: Result<Vec<PastSession>, String>) -> ChatEntryView {
    match sessions {
        Ok(sessions) => if sessions@.len() == 0 {
            ChatEntryView::System("No previous sessions found."@)
        } else {
            ChatEntryView::System(
                "Previous sessions:\n"@ + session_lines_text(past_views(sessions@)),
            )
        },
        Err(error) => ChatEntryView::Error(error@),
    }
}

/// Shows the sessions that were looked up.
pub fn show_sessions(app: &mut App, sessions: Result<Vec<PastSession>, String>)
    ensures
        final(app)@ == old(app)@.showing(sessions_entry(sessions)),
{
    match sessions {
        Ok(sessions) => if sessions.len() == 0 {
            app.show(ChatEntry::System("No previous sessions found.".to_string()));
        } else {
            let text = describe_sessions(&sessions);
            app.show(ChatEntry::System(text));
        },
        Err(error) => app.show(ChatEntry::Error(error)),
    }
}

fn describe_sessions(sessions: &Vec<PastSession>) -> (text: String)
    ensures
        text@ == "Previous sessions:\n"@ + session_lines_text(past_views(sessions@)),
{
    let ghost all = past_views(sessions@);
    let ghost head = "Previous sessions:\n"@;
    let mut text = "Previous sessions:\n".to_string();
    let mut i: usize = 0;
    assert(all.take(0) =~= Seq::empty());
    assert(text@ =~= head + session_lines_text(all.take(0)));
    while i < sessions.len()
        invariant
            all == past_views(sessions@),
            head == "Previous sessions:\n"@,
            i <= sessions@.len(),
            text@ == head + session_lines_text(all.take(i as int)),
        decreases sessions@.len() - i,
    {
        assert(all.take(i + 1).drop_last() =~= all.take(i as int));
        assert(all.take(i + 1).last() == sessions@[i as int]@);
        text.append("  asobi --restore ");
        text.append(sessions[i].id.as_str());
        text.append("  (");
        text.append(sessions[i].modified.as_str());
        text.append(")\n");
        assert(text@ =~= head + session_lines_text(all.take(i + 1)));
        i += 1;
    }
    assert(all.take(i as int) =~= all);
    text
}

/// Two requests to leave in a row are granted, from any state.
pub proof fn law_two_requests_quit(
    app: AppView,
    first: Key,
    second: Key,
    registry: RegistryView,
)
    requires
        asks_to_quit(first, true),
        asks_to_quit(second, true),
    ensures
        pressed(pressed(app, first, true, registry).0, second, true, registry).1
            == EffectView::Quit,
{
}

/// A request to leave that another key follows is forgotten: it takes two more.
pub proof fn law_other_key_forgets_request(
    app: AppView,
    key: Key,
    ctrl: bool,
    quit: Key,
    registry: RegistryView,
)
    requires
        !asks_to_quit(key, ctrl),
        asks_to_quit(quit, true),
    ensures
        !pressed(app, key, ctrl, registry).0.quit_pending,
        pressed(pressed(app, key, ctrl, registry).0, quit, true, registry).1
            == EffectView::Nothing,
{
}

/// While the chat has the focus no key changes the input.
pub proof fn law_chat_focus_keeps_input(
    app: AppView,
    key: Key,
    ctrl: bool,
    registry: RegistryView,
)
    requires
        app.focus == Focus::Chat,
    ensures
        pressed(app, key, ctrl, registry).0.input == app.input,
        pressed(app, key, ctrl, registry).0.cursor_pos == app.cursor_pos,
        pressed(app, key, ctrl, registry).0.chat == app.chat,
{
}

/// Up and Down scroll the chat, whichever part of the screen has the focus, and
/// leave the input alone.
pub proof fn law_arrows_scroll_the_chat(app: AppView, registry: RegistryView)
    ensures
        pressed(app, Key::Up, false, registry) == (
            AppView { quit_pending: false, ..app }.scrolled_up(),
            EffectView::Nothing,
        ),
        pressed(app, Key::Down, false, registry) == (
            AppView { quit_pending: false, ..app }.scrolled_down(),
            EffectView::Nothing,
        ),
        pressed(app, Key::Up, false, registry).0.input == app.input,
        pressed(app, Key::Down, false, registry).0.input == app.input,
        pressed(app, Key::Up, false, registry).0.cursor_pos == app.cursor_pos,
        pressed(app, Key::Down, false, registry).0.cursor_pos == app.cursor_pos,
{
}

/// Only entered input that is no command and not blank is sent to the agent, and
/// then as it was typed.
pub proof fn law_only_entered_input_is_sent(
    app: AppView,
    event: TerminalEvent,
    registry: RegistryView,
    sent: Seq<char>,
)
    requires
        after_terminal_event(app, event, registry).1 == EffectView::Send(sent),
    ensures
        event == (TerminalEvent::Press { key: Key::Enter, ctrl: false }),
        app.focus == Focus::Input,
        sent == app.input,
        trim(sent).len() > 0,
        !"/"@.is_prefix_of(trim(sent)),
        after_terminal_event(app, event, registry).0.is_streaming,
        after_terminal_event(app, event, registry).0.input.len() == 0,
        after_terminal_event(app, event, registry).0.chat == app.chat.push(
            ChatEntryView::User(sent),
        ),
{
}

/// Entered input that begins with a slash, white space aside, is a command: each command
/// does its own, and one that there is not is named as unknown. The line is handed over in
/// any case.
pub proof fn law_commands_are_carried_out(
    app: AppView,
    before: Seq<char>,
    command: Seq<char>,
    behind: Seq<char>,
    registry: RegistryView,
)
    requires
        app.input == before + command + behind,
        is_spaces(before),
        is_spaces(behind),
        command.len() > 0,
        command[0] == '/',
        !is_space(command.last()),
    ensures
        ({
            let (after, effect) = entered(app, registry);
            let taken = app.taken();
            if command == "/quit"@ {
                after == taken && effect is Quit
            } else if command == "/tools"@ {
                &&& effect is Nothing
                &&& after == taken.showing(
                    ChatEntryView::System(tools_text(all_specs(registry))),
                )
            } else if command == "/usage"@ {
                &&& effect is Nothing
                &&& after == taken.showing(
                    ChatEntryView::System(
                        "Token usage:\n  Input:  "@ + decimal(app.total_input_tokens as nat)
                            + "\n  Output: "@ + decimal(app.total_output_tokens as nat)
                            + "\n  Total:  "@ + decimal(
                            (app.total_input_tokens + app.total_output_tokens) as nat,
                        ),
                    ),
                )
            } else if command == "/resume"@ {
                after == taken && effect is ListSessions
            } else {
                &&& effect is Nothing
                &&& after == taken.showing(
                    ChatEntryView::Error(
                        "Unknown command: "@ + command
                            + ". Available: /tools, /usage, /resume, /quit"@,
                    ),
                )
            }
        }),
{
    reveal_strlit("/");
    reveal_strlit("/quit");
    reveal_strlit("/tools");
    reveal_strlit("/usage");
    reveal_strlit("/resume");
    assert(!is_space('/'));
    law_trim_takes_white_space_away(before, command, behind);
    assert("/"@ =~= command.take(1));
    assert("/quit"@.len() == 5 && "/tools"@.len() == 6 && "/usage"@.len() == 6 && "/resume"@.len()
        == 7);
    assert("/tools"@[1] == 't' && "/usage"@[1] == 'u');
}

/// Entered input that is no command goes to the agent as it was typed and becomes the last
/// entry of the chat; input that is all white space goes nowhere.
pub proof fn law_entered_text_goes_to_the_agent(app: AppView, i: int, registry: RegistryView)
    ensures
        is_spaces(app.input) ==> entered(app, registry) == (app.taken(), EffectView::Nothing),
        0 <= i < app.input.len() && !is_space(app.input[i]) && app.input[i] != '/' && is_spaces(
            app.input.take(i),
        ) ==> {
            let (after, effect) = entered(app, registry);
            &&& effect == EffectView::Send(app.input)
            &&& after.is_streaming
            &&& after == (AppView {
                is_streaming: true,
                chat: app.chat + seq![ChatEntryView::User(app.input)],
                ..app.taken()
            })
        },
{
    reveal_strlit("/");
    reveal_strlit("/quit");
    reveal_strlit("/tools");
    reveal_strlit("/usage");
    reveal_strlit("/resume");
    assert("/quit"@[0] == '/' && "/tools"@[0] == '/' && "/usage"@[0] == '/' && "/resume"@[0]
        == '/' && "/"@[0] == '/');
    law_blank_is_all_white_space(app.input);
    if 0 <= i < app.input.len() && !is_space(app.input[i]) && is_spaces(app.input.take(i)) {
        lemma_trimmed_begins(app.input, i);
        let command = trim(app.input);
        if "/"@.is_prefix_of(command) {
            assert(command.take(1)[0] == command[0]);
        }
        let entry = ChatEntryView::User(app.input);
        assert(app.chat.push(entry) =~= app.chat + seq![entry]);
    }
}

/// A trimmed text begins with the first character that is no white space.
proof fn lemma_trimmed_begins(s: Seq<char>, i: int)
    requires
        0 <= i < s.len(),
        !is_space(s[i]),
        is_spaces(s.take(i)),
    ensures
        trim(s).len() > 0,
        trim(s)[0] == s[i],
    decreases s.len(),
{
    if i == 0 {
        lemma_end_keeps_first(s);
    } else {
        assert(is_space(s.take(i)[0]));
        let rest = s.drop_first();
        assert forall|j: int| 0 <= j < rest.take(i - 1).len() implies is_space(
            #[trigger] rest.take(i - 1)[j],
        ) by {
            assert(is_space(s.take(i)[j + 1]));
        }
        lemma_trimmed_begins(rest, i - 1);
        assert(trim_start(s) == trim_start(rest));
    }
}

proof fn lemma_end_keeps_first(s: Seq<char>)
    requires
        s.len() > 0,
        !is_space(s[0]),
    ensures
        trim_end(s).len() > 0,
        trim_end(s)[0] == s[0],
    decreases s.len(),
{
    if is_space(s.last()) {
        lemma_end_keeps_first(s.drop_last());
    }
}

/// The list of the tools says how many there are and then has a line for each, with its
/// name and its description: the built-in ones first, then the plugins.
pub proof fn law_tools_are_listed_line_by_line(
    tools: Seq<ToolSpecView>,
    tool: ToolSpecView,
    registry: RegistryView,
)
    ensures
        tools_text(tools) == decimal(tools.len()) + " tools available:\n"@ + tool_lines(tools),
        tool_lines(Seq::empty()) == Seq::<char>::empty(),
        tool_lines(tools.push(tool)) == tool_lines(tools) + ("  "@ + tool.name + " - "@
            + tool.description + "\n"@),
        all_specs(registry).len() == builtin_specs().len() + registry.wasm_tools.len(),
        forall|i: int|
            0 <= i < builtin_specs().len() ==> all_specs(registry)[i]
                == #[trigger] builtin_specs()[i],
        forall|i: int|
            0 <= i < registry.wasm_tools.len() ==> all_specs(registry)[builtin_specs().len() + i]
                == plugin_spec(#[trigger] registry.wasm_tools[i]),
{
    assert(tools.push(tool).drop_last() =~= tools);
    assert(tool_lines(tools.push(tool)) =~= tool_lines(tools) + ("  "@ + tool.name + " - "@
        + tool.description + "\n"@));
}

/// The sessions that can be continued are shown one by one, each with the command that
/// continues it and when it was changed.
pub proof fn law_sessions_are_listed_line_by_line(
    past: Seq<PastSessionView>,
    session: PastSessionView,
    found: Vec<PastSession>,
    error: String,
)
    ensures
        session_lines_text(Seq::empty()) == Seq::<char>::empty(),
        session_lines_text(past.push(session)) == session_lines_text(past) + (
        "  asobi --restore "@ + session.id + "  ("@ + session.modified + ")\n"@),
        sessions_entry(Err(error)) == ChatEntryView::Error(error@),
        found@.len() == 0 ==> sessions_entry(Ok(found)) == ChatEntryView::System(
            "No previous sessions found."@,
        ),
        found@.len() > 0 ==> sessions_entry(Ok(found)) == ChatEntryView::System(
            "Previous sessions:\n"@ + session_lines_text(past_views(found@)),
        ),
{
    assert(past.push(session).drop_last() =~= past);
    assert(session_lines_text(past.push(session)) =~= session_lines_text(past) + (
    "  asobi --restore "@ + session.id + "  ("@ + session.modified + ")\n"@));
}

/// An entry that is shown comes last in the chat, and nothing else changes.
pub proof fn law_entry_is_shown_last(app: AppView, entry: ChatEntryView)
    ensures
        app.showing(entry) == (AppView { chat: app.chat + seq![entry], ..app }),
{
    assert(app.chat.push(entry) =~= app.chat + seq![entry]);
}

/// With the focus on the input, keys type, take out, move the cursor, enter the line or
/// scroll the chat; any other key does nothing. A request to leave is forgotten.
pub proof fn law_keys_go_to_the_input(app: AppView, c: char, registry: RegistryView)
    requires
        app.focus == Focus::Input,
    ensures
        ({
            let calm = AppView { quit_pending: false, ..app };
            let nothing = EffectView::Nothing;
            &&& pressed(app, Key::Char(c), false, registry) == (calm.inserted(c), nothing)
            &&& pressed(app, Key::Backspace, false, registry) == (calm.deleted(), nothing)
            &&& pressed(app, Key::Left, false, registry) == (calm.moved_left(), nothing)
            &&& pressed(app, Key::Right, false, registry) == (calm.moved_right(), nothing)
            &&& pressed(app, Key::Enter, false, registry) == entered(calm, registry)
            &&& pressed(app, Key::PageUp, false, registry) == (calm.scrolled_up(), nothing)
            &&& pressed(app, Key::PageDown, false, registry) == (calm.scrolled_down(), nothing)
            &&& pressed(app, Key::Other, false, registry) == (calm, nothing)
        }),
{
}

/// Together with the control key, H takes out the character before the cursor, U clears
/// the line, C and D ask to leave, and any other key does nothing.
pub proof fn law_control_keys(app: AppView, key: Key, registry: RegistryView)
    requires
        app.focus == Focus::Input,
        key != Key::Tab,
        key != Key::Esc,
    ensures
        ({
            let calm = AppView { quit_pending: false, ..app };
            let (after, effect) = pressed(app, key, true, registry);
            if key == Key::Char('c') || key == Key::Char('d') {
                &&& after == (AppView { quit_pending: true, ..app })
                &&& app.quit_pending ==> effect is Quit
                &&& !app.quit_pending ==> effect is Nothing
            } else if key == Key::Char('h') {
                after == calm.deleted() && effect is Nothing
            } else if key == Key::Char('u') {
                &&& effect is Nothing
                &&& after.input.len() == 0
                &&& after.cursor_pos == 0
                &&& after == (AppView { input: after.input, cursor_pos: 0, ..calm })
            } else {
                after == calm && effect is Nothing
            }
        }),
{
}

/// Tab moves the focus to the other part of the screen, and Esc moves it to the input;
/// nothing else changes but that a request to leave is forgotten.
pub proof fn law_focus_is_moved(app: AppView, ctrl: bool, registry: RegistryView)
    ensures
        ({
            let (after, effect) = pressed(app, Key::Tab, ctrl, registry);
            &&& effect is Nothing
            &&& after == (AppView { quit_pending: false, focus: after.focus, ..app })
            &&& after.focus != app.focus
        }),
        pressed(app, Key::Esc, ctrl, registry) == (
            AppView { quit_pending: false, focus: Focus::Input, ..app },
            EffectView::Nothing,
        ),
{
}

/// With the focus on the chat, the keys that scroll do so, and any other but Tab, Esc and
/// the requests to leave does nothing.
pub proof fn law_keys_go_to_the_chat(
    app: AppView,
    key: Key,
    ctrl: bool,
    registry: RegistryView,
)
    requires
        app.focus == Focus::Chat,
        !(ctrl && (key == Key::Char('c') || key == Key::Char('d'))),
        key != Key::Tab,
        key != Key::Esc,
    ensures
        ({
            let calm = AppView { quit_pending: false, ..app };
            let (after, effect) = pressed(app, key, ctrl, registry);
            &&& effect is Nothing
            &&& after == if key == Key::Up || key == Key::PageUp {
                calm.scrolled_up()
            } else if key == Key::Down || key == Key::PageDown {
                calm.scrolled_down()
            } else {
                calm
            }
        }),
{
}

/// The wheel of the mouse scrolls the chat; a new size of the screen and other events
/// change nothing.
pub proof fn law_other_terminal_events(app: AppView, key: Key, ctrl: bool, registry: RegistryView)
    ensures
        after_terminal_event(app, TerminalEvent::WheelUp, registry) == (
            app.scrolled_up(),
            EffectView::Nothing,
        ),
        after_terminal_event(app, TerminalEvent::WheelDown, registry) == (
            app.scrolled_down(),
            EffectView::Nothing,
        ),
        after_terminal_event(app, TerminalEvent::Resize, registry) == (app, EffectView::Nothing),
        after_terminal_event(app, TerminalEvent::Other, registry) == (app, EffectView::Nothing),
        after_terminal_event(app, TerminalEvent::Press { key, ctrl }, registry) == pressed(
            app,
            key,
            ctrl,
            registry,
        ),
{
}

}
