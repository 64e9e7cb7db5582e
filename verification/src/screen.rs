//! What the screen shows: the lines of the chat, the input line and the cursor.
use vstd::prelude::*;
use vstd::slice::slice_subrange;

use crate::app::{
    can_truncate, chat_views, is_truncatable, truncate, truncated, App, AppView, ChatEntry,
    ChatEntryView, Focus,
};
use crate::text::{
    chars_before, chars_of, count_chars_before, law_characters_before_a_place, lines, lines_of,
    string_of, texts,
};

verus! {

/// The colours of the screen.
#[derive(Debug, Clone, Copy, PartialEq, Eq, Structural)]
pub enum Color {
    Cyan,
    DarkGray,
    Green,
    Red,
    Yellow,
}

/// A piece of a line in one style.
#[derive(Debug)]
pub struct Span {
    pub text: String,
    pub color: Option<Color>,
    pub bold: bool,
}

/// A line of the screen.
#[derive(Debug)]
pub struct Line {
    pub spans: Vec<Span>,
}

pub struct SpanView {
    pub text: Seq<char>,
    pub color: Option<Color>,
    pub bold: bool,
}

impl View for Span {
    type V = SpanView;

    open spec fn view(&self) -> SpanView {
        SpanView { text: self.text@, color: self.color, bold: self.bold }
    }
}

impl View for Line {
    type V = Seq<SpanView>;

    open spec fn view(&self) -> Seq<SpanView> {
        self.spans@.map_values(|s: Span| s@)
    }
}

pub open spec fn line_views(lines: Seq<Line>) -> Seq<Seq<SpanView>> {
    lines.map_values(|l: Line| l@)
}

/// A part of the screen.
#[derive(Debug, Clone, Copy, PartialEq, Eq, Structural)]
pub struct Area {
    pub x: u16,
    pub y: u16,
    pub width: u16,
    pub height: u16,
}

impl Area {
    /// The far corner can be counted too.
    pub open spec fn wf(self) -> bool {
        self.x + self.width <= u16::MAX && self.y + self.height <= u16::MAX
    }
}

/// How high the upper of two parts is: it leaves `length` to the lower one, but
/// has at least `min`, as far as there is that much.
pub open spec fn upper_height(height: u16, min: u16, length: u16) -> u16 {
    if height >= min + length {
        (height - length) as u16
    } else if height >= min {
        min
    } else {
        height
    }
}

/// How high the lower of two parts is.
pub open spec fn lower_height(height: u16, min: u16, length: u16) -> u16 {
    if height >= min + length {
        length
    } else {
        (height - upper_height(height, min, length)) as u16
    }
}

/// Calls `ratatui::layout::Layout::split` on a vertical layout of
/// `Constraint::Min(min)` over `Constraint::Length(length)`. The minimum is met
/// first, the length next, and the upper part takes what is left. The minimum is
/// read as a signed number of sixteen bits there, hence the bound.
#[verifier::external_body]
fn split_area(area: Area, min: u16, length: u16) -> (areas: (Area, Area))
    requires
        area.wf(),
        min <= i16::MAX,
    ensures
        areas.0 == (Area { height: upper_height(area.height, min, length), ..area }),
        areas.1 == (Area {
            y: (area.y + upper_height(area.height, min, length)) as u16,
            height: lower_height(area.height, min, length),
            ..area
        }),
{
    let a = ratatui::layout::Rect::new(area.x, area.y, area.width, area.height);
    let parts = ratatui::layout::Layout::vertical([
        ratatui::layout::Constraint::Min(min),
        ratatui::layout::Constraint::Length(length),
    ]).split(a);
    let (u, l) = (parts[0], parts[1]);
    (
        Area { x: u.x, y: u.y, width: u.width, height: u.height },
        Area { x: l.x, y: l.y, width: l.width, height: l.height },
    )
}

/// How many columns a text takes, as `unicode_width` counts them.
pub uninterp spec fn text_width(s: Seq<char>) -> usize;

/// Calls `unicode_width::UnicodeWidthStr::width`. The columns are those of its
/// tables, which depend on the text alone.
#[verifier::external_body]
fn width_of_text(s: &str) -> (columns: usize)
    ensures
        columns == text_width(s@),
{
    unicode_width::UnicodeWidthStr::width(s)
}

pub open spec fn plain(text: Seq<char>) -> SpanView {
    SpanView { text, color: None, bold: false }
}

pub open spec fn colored(text: Seq<char>, color: Color) -> SpanView {
    SpanView { text, color: Some(color), bold: false }
}

pub open spec fn bold(text: Seq<char>, color: Color) -> SpanView {
    SpanView { text, color: Some(color), bold: true }
}

/// Line `i` of something that the agent says: the first is marked, the others
/// are set below it.
pub open spec fn agent_line(line: Seq<char>, i: int) -> Seq<SpanView> {
    if i == 0 {
        seq![bold("Agent: "@, Color::Cyan), plain(line)]
    } else {
        seq![plain("       "@ + line)]
    }
}

/// What the agent says, line by line.
pub open spec fn agent_lines(text: Seq<char>) -> Seq<Seq<SpanView>> {
    Seq::new(lines(text).len(), |i: int| agent_line(lines(text)[i], i))
}

/// The lines of an entry of the chat.
pub open spec fn entry_lines(entry: ChatEntryView) -> Seq<Seq<SpanView>> {
    match entry {
        ChatEntryView::User(text) => seq![seq![bold("You: "@, Color::Green), plain(text)]],
        ChatEntryView::AssistantText(text) => agent_lines(text),
        ChatEntryView::ToolCall { name, input } => seq![
            seq![
                bold("  ["@ + name + "] "@, Color::Yellow),
                colored(truncated(input, 80), Color::DarkGray),
            ],
        ],
        ChatEntryView::ToolResult { name, output } => seq![
            seq![
                colored("  ["@ + name + " result] "@, Color::Yellow),
                colored(truncated(output, 120), Color::DarkGray),
            ],
        ],
        ChatEntryView::System(text) => lines(text).map_values(|l: Seq<char>| seq![plain(l)]),
        ChatEntryView::Error(message) => seq![seq![colored("Error: "@ + message, Color::Red)]],
    }
}

/// The lines of the chat.
pub open spec fn chat_lines(chat: Seq<ChatEntryView>) -> Seq<Seq<SpanView>>
    decreases chat.len(),
{
    if chat.len() == 0 {
        seq![]
    } else {
        chat_lines(chat.drop_last()) + entry_lines(chat.last())
    }
}

/// The lines of what is being streamed, with a mark at its end.
pub open spec fn streaming_lines(text: Seq<char>) -> Seq<Seq<SpanView>> {
    if text.len() == 0 {
        seq![]
    } else {
        agent_lines(text).push(seq![colored("▌"@, Color::Cyan)])
    }
}

/// All lines that the chat shows.
pub open spec fn shown_lines(app: AppView) -> Seq<Seq<SpanView>> {
    chat_lines(app.chat) + streaming_lines(app.streaming_text)
}

/// No entry has to be cut inside a character.
pub open spec fn can_show(entry: ChatEntryView) -> bool {
    match entry {
        ChatEntryView::ToolCall { name, input } => can_truncate(input, 80),
        ChatEntryView::ToolResult { name, output } => can_truncate(output, 120),
        _ => true,
    }
}

pub open spec fn can_show_all(chat: Seq<ChatEntryView>) -> bool {
    forall|i: int| 0 <= i < chat.len() ==> can_show(#[trigger] chat[i])
}

/// The screen, ready to be drawn.
pub struct Screen {
    pub chat_area: Area,
    pub input_area: Area,
    pub lines: Vec<Line>,
    pub chat_title: String,
    pub chat_border: Color,
    pub scroll_offset: u16,
    pub input: String,
    pub input_title: String,
    pub input_border: Color,
    pub cursor: Option<(u16, u16)>,
}

pub struct ScreenView {
    pub chat_area: Area,
    pub input_area: Area,
    pub lines: Seq<Seq<SpanView>>,
    pub chat_title: Seq<char>,
    pub chat_border: Color,
    pub scroll_offset: u16,
    pub input: Seq<char>,
    pub input_title: Seq<char>,
    pub input_border: Color,
    pub cursor: Option<(u16, u16)>,
}

impl View for Screen {
    type V = ScreenView;

    open spec fn view(&self) -> ScreenView {
        ScreenView {
            chat_area: self.chat_area,
            input_area: self.input_area,
            lines: line_views(self.lines@),
            chat_title: self.chat_title@,
            chat_border: self.chat_border,
            scroll_offset: self.scroll_offset,
            input: self.input@,
            input_title: self.input_title@,
            input_border: self.input_border,
            cursor: self.cursor,
        }
    }
}

/// The part of the input before the cursor.
pub open spec fn before_cursor(app: AppView) -> Seq<char> {
    app.input.take(chars_before(app.input, app.cursor_pos) as int)
}

/// The last sixteen bits of a number.
pub open spec fn low_bits(n: int) -> u16 {
    (n % 0x10000) as u16
}

/// Where the cursor stands when the text before it takes `columns` columns.
pub open spec fn cursor_at(input_area: Area, columns: usize) -> (int, int) {
    (input_area.x + 1 + low_bits(columns as int), input_area.y + 1)
}

/// The cursor can be put there.
pub open spec fn can_place(input_area: Area, columns: usize) -> bool {
    cursor_at(input_area, columns).0 <= u16::MAX && cursor_at(input_area, columns).1 <= u16::MAX
}

pub open spec fn border(focused: bool) -> Color {
    if focused {
        Color::Cyan
    } else {
        Color::DarkGray
    }
}

/// The state after drawing: how high the chat and its view are, and where the
/// view is, which follows the chat unless it was scrolled.
pub open spec fn drawn(app: AppView, chat_area: Area) -> AppView {
    let content_height = low_bits(shown_lines(app).len() as int);
    let viewport_height = if chat_area.height >= 2 {
        (chat_area.height - 2) as u16
    } else {
        0
    };
    AppView {
        viewport_height,
        content_height,
        scroll_offset: if !app.autoscroll {
            app.scroll_offset
        } else if content_height > viewport_height {
            (content_height - viewport_height) as u16
        } else {
            0
        },
        ..app
    }
}

/// The screen where the text before the cursor takes `columns` columns.
pub open spec fn screen_of(
    app: AppView,
    chat_area: Area,
    input_area: Area,
    columns: usize,
) -> ScreenView {
    ScreenView {
        chat_area,
        input_area,
        lines: shown_lines(app),
        chat_title: " asobi "@,
        chat_border: border(app.focus == Focus::Chat),
        scroll_offset: drawn(app, chat_area).scroll_offset,
        input: app.input,
        input_title: if app.quit_pending {
            " Press Ctrl+C/Ctrl+D again to quit "@
        } else if app.is_streaming {
            " waiting... "@
        } else {
            " > "@
        },
        input_border: border(app.focus == Focus::Input),
        cursor: if app.focus == Focus::Input {
            Some(
                (
                    cursor_at(input_area, columns).0 as u16,
                    cursor_at(input_area, columns).1 as u16,
                ),
            )
        } else {
            None
        },
    }
}

fn span(text: String, color: Option<Color>, bold: bool) -> (made: Span)
    ensures
        made@ == (SpanView { text: text@, color, bold }),
{
    Span { text, color, bold }
}

/// Adds a line of one span.
fn push_one(lines: &mut Vec<Line>, only: Span)
    ensures
        line_views(final(lines)@) == line_views(old(lines)@).push(seq![only@]),
{
    let ghost before = lines@;
    let ghost o = only@;
    let mut spans: Vec<Span> = Vec::new();
    spans.push(only);
    let line = Line { spans };
    assert(line@ =~= seq![o]);
    lines.push(line);
    assert(line_views(lines@) =~= line_views(before).push(seq![o]));
}

/// Adds a line of two spans.
fn push_two(lines: &mut Vec<Line>, first: Span, second: Span)
    ensures
        line_views(final(lines)@) == line_views(old(lines)@).push(seq![first@, second@]),
{
    let ghost before = lines@;
    let ghost f = first@;
    let ghost s = second@;
    let mut spans: Vec<Span> = Vec::new();
    spans.push(first);
    spans.push(second);
    let line = Line { spans };
    assert(line@ =~= seq![f, s]);
    lines.push(line);
    assert(line_views(lines@) =~= line_views(before).push(seq![f, s]));
}

/// Adds what the agent says.
fn push_agent_lines(shown: &mut Vec<Line>, text: &str)
    ensures
        line_views(final(shown)@) == line_views(old(shown)@) + agent_lines(text@),
{
    let ghost before = line_views(shown@);
    let parts = lines_of(text);
    let mut i: usize = 0;
    assert(before + agent_lines(text@).take(0) =~= before);
    while i < parts.len()
        invariant
            texts(parts@) == lines(text@),
            i <= parts@.len(),
            line_views(shown@) == before + agent_lines(text@).take(i as int),
        decreases parts@.len() - i,
    {
        assert(parts@[i as int]@ == lines(text@)[i as int]) by {
            assert(texts(parts@)[i as int] == parts@[i as int]@);
        }
        if i == 0 {
            push_two(
                shown,
                span("Agent: ".to_string(), Some(Color::Cyan), true),
                span(parts[i].clone(), None, false),
            );
        } else {
            let mut line = "       ".to_string();
            line.append(parts[i].as_str());
            push_one(shown, span(line, None, false));
        }
        assert(agent_lines(text@).take(i + 1) =~= agent_lines(text@).take(i as int).push(
            agent_lines(text@)[i as int],
        ));
        assert(line_views(shown@) =~= before + agent_lines(text@).take(i + 1));
        i += 1;
    }
    assert(agent_lines(text@).take(i as int) =~= agent_lines(text@));
}

/// Adds the lines of a text as they are.
fn push_plain_lines(shown: &mut Vec<Line>, text: &str)
    ensures
        line_views(final(shown)@) == line_views(old(shown)@) + lines(text@).map_values(
            |l: Seq<char>| seq![plain(l)],
        ),
{
    let ghost before = line_views(shown@);
    let ghost all = lines(text@).map_values(|l: Seq<char>| seq![plain(l)]);
    let parts = lines_of(text);
    let mut i: usize = 0;
    assert(before + all.take(0) =~= before);
    while i < parts.len()
        invariant
            texts(parts@) == lines(text@),
            all == lines(text@).map_values(|l: Seq<char>| seq![plain(l)]),
            i <= parts@.len(),
            line_views(shown@) == before + all.take(i as int),
        decreases parts@.len() - i,
    {
        assert(parts@[i as int]@ == lines(text@)[i as int]) by {
            assert(texts(parts@)[i as int] == parts@[i as int]@);
        }
        push_one(shown, span(parts[i].clone(), None, false));
        assert(line_views(shown@) =~= before + all.take(i + 1));
        i += 1;
    }
    assert(all.take(i as int) =~= all);
}

/// Adds the lines of an entry of the chat.
fn push_entry(shown: &mut Vec<Line>, entry: &ChatEntry)
    requires
        can_show(entry@),
    ensures
        line_views(final(shown)@) == line_views(old(shown)@) + entry_lines(entry@),
{
    let ghost before = line_views(shown@);
    match entry {
        ChatEntry::User(text) => {
            push_two(
                shown,
                span("You: ".to_string(), Some(Color::Green), true),
                span(text.clone(), None, false),
            );
            assert(line_views(shown@) =~= before + entry_lines(entry@));
        },
        ChatEntry::AssistantText(text) => {
            push_agent_lines(shown, text.as_str());
        },
        ChatEntry::ToolCall { name, input } => {
            let mut label = "  [".to_string();
            label.append(name.as_str());
            label.append("] ");
            push_two(
                shown,
                span(label, Some(Color::Yellow), true),
                span(truncate(input.as_str(), 80), Some(Color::DarkGray), false),
            );
            assert(line_views(shown@) =~= before + entry_lines(entry@));
        },
        ChatEntry::ToolResult { name, output } => {
            let mut label = "  [".to_string();
            label.append(name.as_str());
            label.append(" result] ");
            push_two(
                shown,
                span(label, Some(Color::Yellow), false),
                span(truncate(output.as_str(), 120), Some(Color::DarkGray), false),
            );
            assert(line_views(shown@) =~= before + entry_lines(entry@));
        },
        ChatEntry::System(text) => {
            push_plain_lines(shown, text.as_str());
        },
        ChatEntry::Error(message) => {
            let mut text = "Error: ".to_string();
            text.append(message.as_str());
            push_one(shown, span(text, Some(Color::Red), false));
            assert(line_views(shown@) =~= before + entry_lines(entry@));
        },
    }
}

/// The lines that the chat shows.
pub fn lines_shown(app: &App) -> (shown: Vec<Line>)
    requires
        can_show_all(app@.chat),
    ensures
        line_views(shown@) == shown_lines(app@),
{
    let mut shown: Vec<Line> = Vec::new();
    let ghost chat = app@.chat;
    let mut i: usize = 0;
    assert(chat.take(0) =~= Seq::empty());
    assert(line_views(shown@) =~= chat_lines(chat.take(0)));
    while i < app.chat.len()
        invariant
            chat == chat_views(app.chat@),
            can_show_all(chat),
            i <= app.chat@.len(),
            line_views(shown@) == chat_lines(chat.take(i as int)),
        decreases app.chat@.len() - i,
    {
        assert(chat[i as int] == app.chat@[i as int]@);
        push_entry(&mut shown, &app.chat[i]);
        assert(chat.take(i + 1).drop_last() =~= chat.take(i as int));
        i += 1;
    }
    assert(chat.take(i as int) =~= chat);
    let ghost before = line_views(shown@);
    if !app.streaming_text.as_str().is_empty() {
        push_agent_lines(&mut shown, app.streaming_text.as_str());
        push_one(&mut shown, span("▌".to_string(), Some(Color::Cyan), false));
    }
    assert(line_views(shown@) =~= before + streaming_lines(app.streaming_text@));
    shown
}

/// Whether no entry has to be cut inside a character.
pub fn is_showable(app: &App) -> (can: bool)
    ensures
        can == can_show_all(app@.chat),
{
    let ghost chat = app@.chat;
    let mut i: usize = 0;
    while i < app.chat.len()
        invariant
            chat == chat_views(app.chat@),
            i <= app.chat@.len(),
            forall|j: int| 0 <= j < i ==> can_show(#[trigger] chat[j]),
        decreases app.chat@.len() - i,
    {
        assert(chat[i as int] == app.chat@[i as int]@);
        let fits = match &app.chat[i] {
            ChatEntry::ToolCall { name: _, input } => is_truncatable(input.as_str(), 80),
            ChatEntry::ToolResult { name: _, output } => is_truncatable(output.as_str(), 120),
            _ => true,
        };
        if !fits {
            return false;
        }
        i += 1;
    }
    true
}

/// The last sixteen bits of a number.
fn low_bits_of(n: usize) -> (bits: u16)
    ensures
        bits == low_bits(n as int),
{
    assert(n as u16 == n % 0x10000) by (bit_vector);
    #[verifier::truncate]
    let bits: u16 = n as u16;
    bits
}

fn border_of(focused: bool) -> (color: Color)
    ensures
        color == border(focused),
{
    if focused {
        Color::Cyan
    } else {
        Color::DarkGray
    }
}

/// Draws the chat and the input where the text before the cursor takes
/// `columns` columns.
pub fn render_in(
    app: &mut App,
    chat_area: Area,
    input_area: Area,
    columns: usize,
) -> (screen: Screen)
    requires
        can_show_all(old(app)@.chat),
        old(app)@.focus == Focus::Input ==> can_place(input_area, columns),
    ensures
        screen@ == screen_of(old(app)@, chat_area, input_area, columns),
        final(app)@ == drawn(old(app)@, chat_area),
{
    let ghost start = app@;
    let shown = lines_shown(app);
    app.viewport_height = chat_area.height.saturating_sub(2);
    app.content_height = low_bits_of(shown.len());
    if app.autoscroll {
        app.scroll_offset = app.content_height.saturating_sub(app.viewport_height);
    }
    assert(line_views(shown@).len() == shown@.len());
    let input_title = if app.quit_pending {
        " Press Ctrl+C/Ctrl+D again to quit "
    } else if app.is_streaming {
        " waiting... "
    } else {
        " > "
    };
    let cursor = if app.focus == Focus::Input {
        let x: u16 = input_area.x + 1 + low_bits_of(columns);
        let y: u16 = input_area.y + 1;
        Some((x, y))
    } else {
        None
    };
    Screen {
        chat_area,
        input_area,
        lines: shown,
        chat_title: " asobi ".to_string(),
        chat_border: border_of(app.focus == Focus::Chat),
        scroll_offset: app.scroll_offset,
        input: app.input.clone(),
        input_title: input_title.to_string(),
        input_border: border_of(app.focus == Focus::Input),
        cursor,
    }
}

/// The upper part of the screen, where the chat is.
pub open spec fn chat_area_of(area: Area) -> Area {
    Area { height: upper_height(area.height, 1, 3), ..area }
}

/// The lower part of the screen, where the input is.
pub open spec fn input_area_of(area: Area) -> Area {
    Area {
        y: (area.y + upper_height(area.height, 1, 3)) as u16,
        height: lower_height(area.height, 1, 3),
        ..area
    }
}

/// The screen can be drawn: no entry has to be cut inside a character, and the
/// cursor can be placed.
pub open spec fn can_render(app: AppView, area: Area) -> bool {
    can_show_all(app.chat) && (app.focus == Focus::Input ==> can_place(
        input_area_of(area),
        text_width(before_cursor(app)),
    ))
}

/// Draws the screen. Where it cannot be drawn there is none, and nothing changes.
pub fn render(app: &mut App, area: Area) -> (screen: Option<Screen>)
    requires
        old(app)@.focus == Focus::Input ==> old(app)@.has_cursor(),
        area.wf(),
    ensures
        match screen {
            Some(screen) => can_render(old(app)@, area) && screen@ == screen_of(
                old(app)@,
                chat_area_of(area),
                input_area_of(area),
                text_width(before_cursor(old(app)@)),
            ) && final(app)@ == drawn(old(app)@, chat_area_of(area)),
            None => !can_render(old(app)@, area) && *final(app) == *old(app),
        },
{
    let (chat_area, input_area) = split_area(area, 1, 3);
    if !is_showable(app) {
        return None;
    }
    let mut columns: usize = 0;
    if app.focus == Focus::Input {
        let chars = chars_of(app.input.as_str());
        let k: usize = count_chars_before(chars.as_slice(), app.cursor_pos);
        let before = string_of(slice_subrange(chars.as_slice(), 0, k));
        assert(before@ =~= before_cursor(app@));
        columns = width_of_text(before.as_str());
        let x: u32 = input_area.x as u32 + 1 + low_bits_of(columns) as u32;
        if x > u16::MAX as u32 || input_area.y == u16::MAX {
            return None;
        }
    }
    Some(render_in(app, chat_area, input_area, columns))
}

/// While the view follows the chat, its last line is in sight.
pub proof fn law_autoscroll_shows_the_end(app: AppView, chat_area: Area)
    requires
        app.autoscroll,
    ensures
        drawn(app, chat_area).scroll_offset == drawn(app, chat_area).bottom(),
{
}

/// Drawing changes nothing of what is shown: drawing twice is drawing once.
pub proof fn law_drawing_again_changes_nothing(app: AppView, chat_area: Area)
    ensures
        drawn(drawn(app, chat_area), chat_area) == drawn(app, chat_area),
{
}

/// The two parts of the screen lie one above the other and fill it.
pub proof fn law_parts_fill_the_screen(area: Area)
    requires
        area.wf(),
    ensures
        chat_area_of(area).y == area.y,
        input_area_of(area).y == area.y + chat_area_of(area).height,
        chat_area_of(area).height + input_area_of(area).height == area.height,
        area.height > 0 ==> chat_area_of(area).height > 0,
        input_area_of(area).height <= 3,
{
}

/// What the agent says is shown line by line: the first line behind a bold mark in cyan,
/// each other set in by seven blanks.
pub proof fn law_agent_is_shown_line_by_line(text: Seq<char>, i: int)
    requires
        0 <= i < lines(text).len(),
    ensures
        agent_lines(text).len() == lines(text).len(),
        i == 0 ==> agent_lines(text)[i] == seq![
            SpanView { text: "Agent: "@, color: Some(Color::Cyan), bold: true },
            SpanView { text: lines(text)[i], color: None, bold: false },
        ],
        i > 0 ==> agent_lines(text)[i] == seq![
            SpanView { text: "       "@ + lines(text)[i], color: None, bold: false },
        ],
{
}

/// Each entry of the chat is shown in its own way: what the user and the agent say, and
/// what the program says, whole; a call and a result of a tool on one line that is cut
/// where it is long; an error with that word in front.
pub proof fn law_entries_are_shown_by_their_kind(entry: ChatEntryView)
    ensures
        match entry {
            ChatEntryView::User(text) => entry_lines(entry) == seq![
                seq![
                    SpanView { text: "You: "@, color: Some(Color::Green), bold: true },
                    SpanView { text, color: None, bold: false },
                ],
            ],
            ChatEntryView::AssistantText(text) => entry_lines(entry) == agent_lines(text),
            ChatEntryView::ToolCall { name, input } => entry_lines(entry) == seq![
                seq![
                    SpanView {
                        text: "  ["@ + name + "] "@,
                        color: Some(Color::Yellow),
                        bold: true,
                    },
                    SpanView {
                        text: truncated(input, 80),
                        color: Some(Color::DarkGray),
                        bold: false,
                    },
                ],
            ] && can_show(entry) == can_truncate(input, 80),
            ChatEntryView::ToolResult { name, output } => entry_lines(entry) == seq![
                seq![
                    SpanView {
                        text: "  ["@ + name + " result] "@,
                        color: Some(Color::Yellow),
                        bold: false,
                    },
                    SpanView {
                        text: truncated(output, 120),
                        color: Some(Color::DarkGray),
                        bold: false,
                    },
                ],
            ] && can_show(entry) == can_truncate(output, 120),
            ChatEntryView::System(text) => {
                &&& entry_lines(entry).len() == lines(text).len()
                &&& forall|i: int|
                    0 <= i < lines(text).len() ==> entry_lines(entry)[i] == seq![
                        SpanView { text: #[trigger] lines(text)[i], color: None, bold: false },
                    ]
            },
            ChatEntryView::Error(message) => entry_lines(entry) == seq![
                seq![
                    SpanView {
                        text: "Error: "@ + message,
                        color: Some(Color::Red),
                        bold: false,
                    },
                ],
            ],
        },
        entry is User || entry is AssistantText || entry is System || entry is Error ==> can_show(
            entry,
        ),
{
}

/// The chat is shown entry by entry, and behind it what is being streamed, if anything is,
/// with a mark on a line of its own.
pub proof fn law_chat_is_shown_entry_by_entry(
    app: AppView,
    chat: Seq<ChatEntryView>,
    entry: ChatEntryView,
)
    ensures
        chat_lines(Seq::empty()) == Seq::<Seq<SpanView>>::empty(),
        chat_lines(chat.push(entry)) == chat_lines(chat) + entry_lines(entry),
        app.streaming_text.len() == 0 ==> shown_lines(app) == chat_lines(app.chat),
        app.streaming_text.len() > 0 ==> shown_lines(app) == chat_lines(app.chat) + agent_lines(
            app.streaming_text,
        ) + seq![seq![SpanView { text: "▌"@, color: Some(Color::Cyan), bold: false }]],
{
    assert(chat.push(entry).drop_last() =~= chat);
    if app.streaming_text.len() == 0 {
        assert(shown_lines(app) =~= chat_lines(app.chat));
    } else {
        assert(shown_lines(app) =~= chat_lines(app.chat) + agent_lines(app.streaming_text) + seq![
            seq![SpanView { text: "▌"@, color: Some(Color::Cyan), bold: false }],
        ]);
    }
}

/// The screen shows all lines of the chat and the input as it is; the part that has the
/// focus has a cyan border, and the title of the input tells the state.
pub proof fn law_screen_shows_chat_and_input(
    app: AppView,
    chat_area: Area,
    input_area: Area,
    columns: usize,
)
    ensures
        ({
            let screen = screen_of(app, chat_area, input_area, columns);
            &&& screen.chat_area == chat_area && screen.input_area == input_area
            &&& screen.lines == shown_lines(app)
            &&& screen.input == app.input
            &&& screen.scroll_offset == drawn(app, chat_area).scroll_offset
            &&& screen.chat_title == " asobi "@
            &&& app.focus == Focus::Chat ==> screen.chat_border == Color::Cyan
                && screen.input_border == Color::DarkGray && screen.cursor is None
            &&& app.focus == Focus::Input ==> screen.chat_border == Color::DarkGray
                && screen.input_border == Color::Cyan
            &&& app.focus == Focus::Input ==> screen.cursor == Some(
                (
                    (input_area.x + 1 + columns % 0x10000) as u16,
                    (input_area.y + 1) as u16,
                ),
            )
            &&& app.quit_pending ==> screen.input_title == " Press Ctrl+C/Ctrl+D again to quit "@
            &&& !app.quit_pending && app.is_streaming ==> screen.input_title == " waiting... "@
            &&& !app.quit_pending && !app.is_streaming ==> screen.input_title == " > "@
        }),
{
}

/// Drawing takes note of how many lines there are and how many fit between the borders. A
/// view that follows the chat goes to its end, any other stays where it is; all else stays
/// as it was.
pub proof fn law_drawing_takes_note_of_the_heights(app: AppView, chat_area: Area)
    ensures
        ({
            let after = drawn(app, chat_area);
            let total = shown_lines(app).len();
            &&& after == (AppView {
                viewport_height: after.viewport_height,
                content_height: after.content_height,
                scroll_offset: after.scroll_offset,
                ..app
            })
            &&& after.content_height == total % 0x10000
            &&& chat_area.height >= 2 ==> after.viewport_height == chat_area.height - 2
            &&& chat_area.height < 2 ==> after.viewport_height == 0
            &&& !app.autoscroll ==> after.scroll_offset == app.scroll_offset
            &&& app.autoscroll && after.content_height >= after.viewport_height
                ==> after.scroll_offset + after.viewport_height == after.content_height
            &&& app.autoscroll && after.content_height < after.viewport_height
                ==> after.scroll_offset == 0
        }),
{
}

/// The cursor stands behind the text before it, as wide as that is.
pub proof fn law_cursor_stands_behind_its_text(app: AppView, left: Seq<char>, right: Seq<char>)
    requires
        app.is_between(left, right),
    ensures
        before_cursor(app) == left,
{
    law_characters_before_a_place(left, right);
    assert(app.input.take(left.len() as int) =~= left);
}

/// The screen can be drawn exactly where no call and no result of a tool has to be cut
/// inside a character, and the cursor, where it is shown, has a place that can be counted.
pub proof fn law_screen_can_be_drawn(app: AppView, area: Area, input_area: Area, columns: usize)
    ensures
        can_place(input_area, columns) <==> input_area.x + 1 + columns % 0x10000 <= u16::MAX
            && input_area.y + 1 <= u16::MAX,
        can_show_all(app.chat) <==> forall|i: int|
            0 <= i < app.chat.len() ==> can_show(#[trigger] app.chat[i]),
        can_render(app, area) <==> can_show_all(app.chat) && (app.focus == Focus::Input
            ==> can_place(input_area_of(area), text_width(before_cursor(app)))),
{
}

/// The input has three lines at the bottom of the screen and the chat all above it; on a
/// lower screen the chat keeps one line, and the input has the rest.
pub proof fn law_input_has_three_lines(area: Area)
    requires
        area.wf(),
    ensures
        area.height >= 4 ==> input_area_of(area).height == 3 && chat_area_of(area).height
            == area.height - 3,
        0 < area.height < 4 ==> chat_area_of(area).height == 1 && input_area_of(area).height
            == area.height - 1,
        chat_area_of(area).x == area.x && chat_area_of(area).width == area.width,
        input_area_of(area).x == area.x && input_area_of(area).width == area.width,
{
}

}
