//! The state of the chat screen: the input line, the conversation shown and the
//! position in it.
use vstd::prelude::*;
use vstd::slice::slice_subrange;
use vstd::utf8::encode_utf8;

use crate::agent::{AgentEvent, AgentEventView};
use crate::conversation::{
    block_views, message_views, texts_in, BlockView, ContentBlock, Message, MessageView, Role,
};
use crate::text::{
    byte_len, byte_len_of, char_width, chars_before, chars_of, count_chars_before, is_blank,
    is_space, law_blank_is_all_white_space, law_characters_before_a_place, lemma_boundary,
    lemma_byte_len_concat, lemma_byte_len_one, lemma_byte_len_prefix, lemma_byte_len_take,
    on_boundary, push_chars, replace_char, replace_char_in, string_of, texts, trim,
};

verus! {

/// Which part of the screen the keys go to.
#[derive(Debug, Clone, Copy, PartialEq, Eq, Structural)]
pub enum Focus {
    Input,
    Chat,
}

/// An entry of the conversation as it is shown.
#[derive(Debug, Clone)]
pub enum ChatEntry {
    User(String),
    AssistantText(String),
    ToolCall { name: String, input: String },
    ToolResult { name: String, output: String },
    System(String),
    Error(String),
}

pub enum ChatEntryView {
    User(Seq<char>),
    AssistantText(Seq<char>),
    ToolCall { name: Seq<char>, input: Seq<char> },
    ToolResult { name: Seq<char>, output: Seq<char> },
    System(Seq<char>),
    Error(Seq<char>),
}

impl View for ChatEntry {
    type V = ChatEntryView;

    open spec fn view(&self) -> ChatEntryView {
        match self {
            ChatEntry::User(text) => ChatEntryView::User(text@),
            ChatEntry::AssistantText(text) => ChatEntryView::AssistantText(text@),
            ChatEntry::ToolCall { name, input } => ChatEntryView::ToolCall {
                name: name@,
                input: input@,
            },
            ChatEntry::ToolResult { name, output } => ChatEntryView::ToolResult {
                name: name@,
                output: output@,
            },
            ChatEntry::System(text) => ChatEntryView::System(text@),
            ChatEntry::Error(text) => ChatEntryView::Error(text@),
        }
    }
}

pub open spec fn chat_views(chat: Seq<ChatEntry>) -> Seq<ChatEntryView> {
    chat.map_values(|e: ChatEntry| e@)
}

/// The state of the screen. The cursor is a byte offset into the input.
pub struct App {
    pub input: String,
    pub cursor_pos: usize,
    pub chat: Vec<ChatEntry>,
    pub streaming_text: String,
    pub is_streaming: bool,
    pub scroll_offset: u16,
    pub content_height: u16,
    pub viewport_height: u16,
    pub quit_pending: bool,
    pub autoscroll: bool,
    pub focus: Focus,
    pub input_history: Vec<String>,
    pub history_index: Option<usize>,
    pub saved_input: String,
    pub total_input_tokens: u64,
    pub total_output_tokens: u64,
}

#[verifier::ext_equal]
pub struct AppView {
    pub input: Seq<char>,
    pub cursor_pos: int,
    pub chat: Seq<ChatEntryView>,
    pub streaming_text: Seq<char>,
    pub is_streaming: bool,
    pub scroll_offset: u16,
    pub content_height: u16,
    pub viewport_height: u16,
    pub quit_pending: bool,
    pub autoscroll: bool,
    pub focus: Focus,
    pub input_history: Seq<Seq<char>>,
    pub history_index: Option<int>,
    pub saved_input: Seq<char>,
    pub total_input_tokens: u64,
    pub total_output_tokens: u64,
}

impl View for App {
    type V = AppView;

    open spec fn view(&self) -> AppView {
        AppView {
            input: self.input@,
            cursor_pos: self.cursor_pos as int,
            chat: chat_views(self.chat@),
            streaming_text: self.streaming_text@,
            is_streaming: self.is_streaming,
            scroll_offset: self.scroll_offset,
            content_height: self.content_height,
            viewport_height: self.viewport_height,
            quit_pending: self.quit_pending,
            autoscroll: self.autoscroll,
            focus: self.focus,
            input_history: texts(self.input_history@),
            history_index: match self.history_index {
                Some(i) => Some(i as int),
                None => None,
            },
            saved_input: self.saved_input@,
            total_input_tokens: self.total_input_tokens,
            total_output_tokens: self.total_output_tokens,
        }
    }
}

impl AppView {
    /// The cursor is between two characters of the input.
    pub open spec fn has_cursor(self) -> bool {
        on_boundary(self.input, self.cursor_pos)
    }

    /// The place in the input history is one that the history has.
    pub open spec fn has_place(self) -> bool {
        match self.history_index {
            Some(i) => 0 <= i < self.input_history.len(),
            None => true,
        }
    }

    pub open spec fn wf(self) -> bool {
        self.has_cursor() && self.has_place()
    }

    /// How many characters of the input are before the cursor.
    pub open spec fn cursor(self) -> int {
        chars_before(self.input, self.cursor_pos) as int
    }

    /// The offset at which the last line is at the bottom of the view.
    pub open spec fn bottom(self) -> int {
        if self.content_height > self.viewport_height {
            self.content_height - self.viewport_height
        } else {
            0
        }
    }

    /// What has been streamed becomes an entry of the chat.
    pub open spec fn flushed(self) -> AppView {
        if self.streaming_text.len() == 0 {
            self
        } else {
            AppView {
                streaming_text: Seq::empty(),
                chat: self.chat.push(ChatEntryView::AssistantText(self.streaming_text)),
                ..self
            }
        }
    }

    /// With one entry more in the chat.
    pub open spec fn showing(self, entry: ChatEntryView) -> AppView {
        AppView { chat: self.chat.push(entry), ..self }
    }

    pub open spec fn after_event(self, event: AgentEventView) -> AppView {
        match event {
            AgentEventView::Text(text) => AppView {
                streaming_text: self.streaming_text + text,
                ..self
            },
            AgentEventView::ToolCall { name, input } => self.flushed().showing(
                ChatEntryView::ToolCall { name, input },
            ),
            AgentEventView::ToolResult { name, output } => self.showing(
                ChatEntryView::ToolResult { name, output },
            ),
            AgentEventView::Usage { input_tokens, output_tokens } => AppView {
                total_input_tokens: saturating_sum(self.total_input_tokens, input_tokens),
                total_output_tokens: saturating_sum(self.total_output_tokens, output_tokens),
                ..self
            },
            AgentEventView::TurnEnd => AppView { is_streaming: false, ..self.flushed() },
            AgentEventView::Error(message) => AppView {
                is_streaming: false,
                ..self.flushed().showing(ChatEntryView::Error(message))
            },
        }
    }

    pub open spec fn inserted(self, c: char) -> AppView {
        let k = self.cursor();
        AppView {
            input: self.input.take(k).push(c) + self.input.skip(k),
            cursor_pos: self.cursor_pos + char_width(c),
            ..self
        }
    }

    pub open spec fn deleted(self) -> AppView {
        let k = self.cursor();
        if self.cursor_pos == 0 {
            self
        } else {
            AppView {
                input: self.input.take(k - 1) + self.input.skip(k),
                cursor_pos: byte_len(self.input.take(k - 1)) as int,
                ..self
            }
        }
    }

    pub open spec fn moved_left(self) -> AppView {
        if self.cursor_pos == 0 {
            self
        } else {
            AppView {
                cursor_pos: byte_len(self.input.take(self.cursor() - 1)) as int,
                ..self
            }
        }
    }

    pub open spec fn moved_right(self) -> AppView {
        if self.cursor_pos >= byte_len(self.input) {
            self
        } else {
            AppView {
                cursor_pos: byte_len(self.input.take(self.cursor() + 1)) as int,
                ..self
            }
        }
    }

    /// The input is handed over; it is remembered unless it is blank.
    pub open spec fn taken(self) -> AppView {
        AppView {
            input: Seq::empty(),
            cursor_pos: 0,
            history_index: None,
            saved_input: Seq::empty(),
            input_history: if trim(self.input).len() > 0 {
                self.input_history.push(self.input)
            } else {
                self.input_history
            },
            ..self
        }
    }

    /// With `text` in the input and the cursor at its end.
    pub open spec fn with_input(self, text: Seq<char>) -> AppView {
        AppView { input: text, cursor_pos: byte_len(text) as int, ..self }
    }

    /// One step back in the input history; the draft is kept.
    pub open spec fn previous(self) -> AppView {
        let n = self.input_history.len() as int;
        if n == 0 || self.history_index == Some(0int) {
            self
        } else {
            match self.history_index {
                None => AppView {
                    saved_input: self.input,
                    history_index: Some(n - 1),
                    ..self.with_input(self.input_history[n - 1])
                },
                Some(i) => AppView {
                    history_index: Some(i - 1),
                    ..self.with_input(self.input_history[i - 1])
                },
            }
        }
    }

    /// One step forward in the input history; after its end comes the draft.
    pub open spec fn next(self) -> AppView {
        match self.history_index {
            None => self,
            Some(i) => if i + 1 >= self.input_history.len() {
                AppView {
                    saved_input: Seq::empty(),
                    history_index: None,
                    ..self.with_input(self.saved_input)
                }
            } else {
                AppView {
                    history_index: Some(i + 1),
                    ..self.with_input(self.input_history[i + 1])
                }
            },
        }
    }

    pub open spec fn scrolled_up(self) -> AppView {
        AppView {
            autoscroll: false,
            scroll_offset: if self.scroll_offset > 3 {
                (self.scroll_offset - 3) as u16
            } else {
                0
            },
            ..self
        }
    }

    /// Three lines down, but not past the bottom; at the bottom the view follows
    /// what is added.
    pub open spec fn scrolled_down(self) -> AppView {
        let bottom = self.bottom();
        let wanted = self.scroll_offset + 3;
        AppView {
            scroll_offset: if wanted > bottom {
                bottom as u16
            } else {
                wanted as u16
            },
            autoscroll: self.autoscroll || wanted >= bottom,
            ..self
        }
    }
}

/// The sum of two counts, or the largest count there is.
pub open spec fn saturating_sum(a: u64, b: u64) -> u64 {
    if a + b > u64::MAX {
        u64::MAX
    } else {
        (a + b) as u64
    }
}

/// The entries in which the texts of the messages are shown.
pub open spec fn entries_of(messages: Seq<MessageView>) -> Seq<ChatEntryView>
    decreases messages.len(),
{
    if messages.len() == 0 {
        seq![]
    } else {
        entries_of(messages.drop_last()) + block_entries(
            messages.last().role,
            messages.last().content,
        )
    }
}

/// The entries in which the texts of one message are shown.
pub open spec fn block_entries(role: Role, blocks: Seq<BlockView>) -> Seq<ChatEntryView>
    decreases blocks.len(),
{
    if blocks.len() == 0 {
        seq![]
    } else {
        let before = block_entries(role, blocks.drop_last());
        match (role, blocks.last()) {
            (Role::User, BlockView::Text(text)) => before.push(ChatEntryView::User(text)),
            (Role::Assistant, BlockView::Text(text)) => before.push(
                ChatEntryView::AssistantText(text),
            ),
            _ => before,
        }
    }
}

impl App {
    pub fn new() -> (app: App)
        ensures
            app@ == (AppView {
                input: Seq::empty(),
                cursor_pos: 0,
                chat: Seq::empty(),
                streaming_text: Seq::empty(),
                is_streaming: false,
                scroll_offset: 0,
                content_height: 0,
                viewport_height: 0,
                quit_pending: false,
                autoscroll: true,
                focus: Focus::Input,
                input_history: Seq::empty(),
                history_index: None,
                saved_input: Seq::empty(),
                total_input_tokens: 0,
                total_output_tokens: 0,
            }),
            app@.wf(),
    {
        let app = App {
            input: String::new(),
            cursor_pos: 0,
            chat: Vec::new(),
            streaming_text: String::new(),
            is_streaming: false,
            scroll_offset: 0,
            content_height: 0,
            viewport_height: 0,
            quit_pending: false,
            autoscroll: true,
            focus: Focus::Input,
            input_history: Vec::new(),
            history_index: None,
            saved_input: String::new(),
            total_input_tokens: 0,
            total_output_tokens: 0,
        };
        assert(app.input@.take(0) =~= Seq::empty());
        assert(chat_views(app.chat@) =~= Seq::empty());
        assert(texts(app.input_history@) =~= Seq::empty());
        app
    }

    /// Shows the texts of an earlier conversation.
    pub fn load_history(&mut self, messages: &[Message])
        ensures
            final(self)@ == (AppView {
                chat: old(self)@.chat + entries_of(message_views(messages@)),
                autoscroll: true,
                ..old(self)@
            }),
    {
        let ghost start = self@;
        let ghost all = message_views(messages@);
        let mut i: usize = 0;
        assert(start.chat + entries_of(all.take(0)) =~= start.chat);
        while i < messages.len()
            invariant
                all == message_views(messages@),
                i <= messages@.len(),
                self@ == (AppView { chat: start.chat + entries_of(all.take(i as int)), ..start }),
            decreases messages@.len() - i,
        {
            let message = &messages[i];
            let ghost before = self@.chat;
            let ghost blocks = block_views(message.content@);
            let mut j: usize = 0;
            assert(before + block_entries(message.role, blocks.take(0)) =~= before);
            while j < message.content.len()
                invariant
                    blocks == block_views(message.content@),
                    j <= message.content@.len(),
                    self@ == (AppView {
                        chat: before + block_entries(message.role, blocks.take(j as int)),
                        ..start
                    }),
                decreases message.content@.len() - j,
            {
                let ghost shown = self.chat@;
                assert(blocks.take(j + 1).drop_last() =~= blocks.take(j as int));
                assert(blocks.take(j + 1).last() == message.content@[j as int]@);
                if let ContentBlock::Text(text) = &message.content[j] {
                    match message.role {
                        Role::User => {
                            self.chat.push(ChatEntry::User(text.clone()));
                            assert(chat_views(self.chat@) =~= chat_views(shown).push(
                                ChatEntryView::User(text@),
                            ));
                        },
                        Role::Assistant => {
                            self.chat.push(ChatEntry::AssistantText(text.clone()));
                            assert(chat_views(self.chat@) =~= chat_views(shown).push(
                                ChatEntryView::AssistantText(text@),
                            ));
                        },
                        Role::Other => {},
                    }
                }
                assert(self@.chat =~= before + block_entries(message.role, blocks.take(j + 1)));
                j += 1;
            }
            assert(blocks.take(j as int) =~= blocks);
            assert(all.take(i + 1).drop_last() =~= all.take(i as int));
            assert(all.take(i + 1).last() == message@);
            assert(self@.chat =~= start.chat + entries_of(all.take(i + 1)));
            i += 1;
        }
        assert(all.take(i as int) =~= all);
        self.autoscroll = true;
    }

    /// Asks to leave. The second request in a row is granted.
    pub fn request_quit(&mut self) -> (granted: bool)
        ensures
            granted == old(self)@.quit_pending,
            final(self)@ == (AppView { quit_pending: true, ..old(self)@ }),
    {
        if self.quit_pending {
            return true;
        }
        self.quit_pending = true;
        false
    }

    pub fn reset_quit_pending(&mut self)
        ensures
            final(self)@ == (AppView { quit_pending: false, ..old(self)@ }),
    {
        self.quit_pending = false;
    }

    /// Adds an entry to the chat.
    pub fn show(&mut self, entry: ChatEntry)
        ensures
            final(self)@ == old(self)@.showing(entry@),
    {
        let ghost before = self.chat@;
        self.chat.push(entry);
        assert(chat_views(self.chat@) =~= chat_views(before).push(entry@));
    }

    pub fn handle_agent_event(&mut self, event: AgentEvent)
        ensures
            final(self)@ == old(self)@.after_event(event@),
    {
        match event {
            AgentEvent::Text(text) => {
                self.streaming_text.append(text.as_str());
            },
            AgentEvent::ToolCall { name, input } => {
                self.flush_streaming();
                self.show(ChatEntry::ToolCall { name, input });
            },
            AgentEvent::ToolResult { name, output } => {
                self.show(ChatEntry::ToolResult { name, output });
            },
            AgentEvent::Usage { input_tokens, output_tokens } => {
                self.total_input_tokens = self.total_input_tokens.saturating_add(input_tokens);
                self.total_output_tokens = self.total_output_tokens.saturating_add(
                    output_tokens,
                );
            },
            AgentEvent::TurnEnd => {
                self.flush_streaming();
                self.is_streaming = false;
            },
            AgentEvent::Error(msg) => {
                self.flush_streaming();
                self.show(ChatEntry::Error(msg));
                self.is_streaming = false;
            },
        }
    }

    fn flush_streaming(&mut self)
        ensures
            final(self)@ == old(self)@.flushed(),
    {
        if !self.streaming_text.as_str().is_empty() {
            let mut text = String::new();
            core::mem::swap(&mut text, &mut self.streaming_text);
            self.show(ChatEntry::AssistantText(text));
        }
    }

    /// Puts a character into the input, at the cursor.
    pub fn insert_char(&mut self, c: char)
        requires
            old(self)@.has_cursor(),
        ensures
            final(self)@ == old(self)@.inserted(c),
            final(self)@.has_cursor(),
            old(self)@.wf() ==> final(self)@.wf(),
    {
        let chars = chars_of(self.input.as_str());
        let k: usize = count_chars_before(chars.as_slice(), self.cursor_pos);
        let mut input = string_of(slice_subrange(chars.as_slice(), 0, k));
        input.push(c);
        let ghost head = input@;
        let cursor_pos: usize = byte_len_of(input.as_str());
        push_chars(&mut input, slice_subrange(chars.as_slice(), k, chars.len()));
        proof {
            assert(head =~= chars@.take(k as int).push(c));
            assert(input@ =~= self@.inserted(c).input);
            assert(input@.take(k + 1) =~= head);
            assert(input@.take(k as int) =~= chars@.take(k as int));
            lemma_byte_len_take(input@, k as int);
            lemma_boundary(input@, k + 1);
        }
        self.input = input;
        self.cursor_pos = cursor_pos;
    }

    /// Takes out the character before the cursor.
    pub fn delete_char(&mut self)
        requires
            old(self)@.has_cursor(),
        ensures
            final(self)@ == old(self)@.deleted(),
            final(self)@.has_cursor(),
            old(self)@.wf() ==> final(self)@.wf(),
    {
        if self.cursor_pos > 0 {
            let chars = chars_of(self.input.as_str());
            let k: usize = count_chars_before(chars.as_slice(), self.cursor_pos);
            proof {
                lemma_cursor_not_at_start(self@);
            }
            let mut input = string_of(slice_subrange(chars.as_slice(), 0, k - 1));
            let ghost head = input@;
            let cursor_pos: usize = byte_len_of(input.as_str());
            push_chars(&mut input, slice_subrange(chars.as_slice(), k, chars.len()));
            proof {
                assert(head =~= chars@.take(k - 1));
                assert(input@ =~= self@.deleted().input);
                assert(input@.take(k - 1) =~= head);
                lemma_boundary(input@, k - 1);
            }
            self.input = input;
            self.cursor_pos = cursor_pos;
        }
    }

    /// Hands the input over and empties it. What is not blank is remembered.
    pub fn take_input(&mut self) -> (input: String)
        ensures
            input@ == old(self)@.input,
            final(self)@ == old(self)@.taken(),
            final(self)@.wf(),
    {
        self.cursor_pos = 0;
        self.history_index = None;
        self.saved_input = String::new();
        let mut input = String::new();
        core::mem::swap(&mut input, &mut self.input);
        if !is_blank(input.as_str()) {
            let ghost before = self.input_history@;
            self.input_history.push(input.clone());
            assert(texts(self.input_history@) =~= texts(before).push(input@));
        }
        assert(self.input@.take(0) =~= Seq::empty());
        input
    }

    pub fn clear_input(&mut self)
        ensures
            final(self)@ == (AppView { input: Seq::empty(), cursor_pos: 0, ..old(self)@ }),
            old(self)@.wf() ==> final(self)@.wf(),
    {
        self.input = String::new();
        self.cursor_pos = 0;
        assert(self.input@.take(0) =~= Seq::empty());
    }

    /// Shows the input that was handed over before the one shown.
    pub fn history_prev(&mut self)
        requires
            old(self)@.has_place(),
        ensures
            final(self)@ == old(self)@.previous(),
            final(self)@.has_place(),
            old(self)@.wf() ==> final(self)@.wf(),
    {
        if self.input_history.len() == 0 {
            return ;
        }
        let idx: usize = match self.history_index {
            None => {
                self.saved_input = self.input.clone();
                self.input_history.len() - 1
            },
            Some(i) => {
                if i == 0 {
                    return ;
                }
                i - 1
            },
        };
        self.history_index = Some(idx);
        self.input = self.input_history[idx].clone();
        self.cursor_pos = byte_len_of(self.input.as_str());
        proof {
            lemma_boundary_at_end(self.input@);
        }
    }

    /// Shows the input that was handed over after the one shown, or the draft.
    pub fn history_next(&mut self)
        requires
            old(self)@.has_place(),
        ensures
            final(self)@ == old(self)@.next(),
            final(self)@.has_place(),
            old(self)@.wf() ==> final(self)@.wf(),
    {
        let idx: usize = match self.history_index {
            None => return,
            Some(i) => i,
        };
        if idx >= self.input_history.len() - 1 {
            self.history_index = None;
            let mut draft = String::new();
            core::mem::swap(&mut draft, &mut self.saved_input);
            self.input = draft;
        } else {
            self.history_index = Some(idx + 1);
            self.input = self.input_history[idx + 1].clone();
        }
        self.cursor_pos = byte_len_of(self.input.as_str());
        proof {
            lemma_boundary_at_end(self.input@);
        }
    }

    /// Nothing is kept that depends on the size of the screen.
    pub fn on_resize(&mut self)
        ensures
            *final(self) == *old(self),
    {
    }

    pub fn toggle_focus(&mut self)
        ensures
            final(self)@ == (AppView {
                focus: match old(self)@.focus {
                    Focus::Input => Focus::Chat,
                    Focus::Chat => Focus::Input,
                },
                ..old(self)@
            }),
    {
        self.focus = match self.focus {
            Focus::Input => Focus::Chat,
            Focus::Chat => Focus::Input,
        };
    }

    pub fn scroll_up(&mut self)
        ensures
            final(self)@ == old(self)@.scrolled_up(),
    {
        self.autoscroll = false;
        self.scroll_offset = self.scroll_offset.saturating_sub(3);
    }

    pub fn scroll_down(&mut self)
        ensures
            final(self)@ == old(self)@.scrolled_down(),
    {
        self.scroll_offset = self.scroll_offset.saturating_add(3);
        self.clamp_scroll();
        let max: u16 = self.content_height.saturating_sub(self.viewport_height);
        if self.scroll_offset >= max {
            self.autoscroll = true;
        }
    }

    fn clamp_scroll(&mut self)
        ensures
            final(self)@ == (AppView {
                scroll_offset: if old(self)@.scroll_offset > old(self)@.bottom() {
                    old(self)@.bottom() as u16
                } else {
                    old(self)@.scroll_offset
                },
                ..old(self)@
            }),
    {
        let max: u16 = self.content_height.saturating_sub(self.viewport_height);
        if self.scroll_offset > max {
            self.scroll_offset = max;
        }
    }

    pub fn move_cursor_left(&mut self)
        requires
            old(self)@.has_cursor(),
        ensures
            final(self)@ == old(self)@.moved_left(),
            final(self)@.has_cursor(),
            old(self)@.wf() ==> final(self)@.wf(),
    {
        if self.cursor_pos > 0 {
            let chars = chars_of(self.input.as_str());
            let k: usize = count_chars_before(chars.as_slice(), self.cursor_pos);
            proof {
                lemma_cursor_not_at_start(self@);
                lemma_boundary(chars@, k - 1);
            }
            let head = string_of(slice_subrange(chars.as_slice(), 0, k - 1));
            assert(head@ =~= chars@.take(k - 1));
            self.cursor_pos = byte_len_of(head.as_str());
        }
    }

    pub fn move_cursor_right(&mut self)
        requires
            old(self)@.cursor_pos < byte_len(old(self)@.input) ==> old(self)@.has_cursor(),
        ensures
            final(self)@ == old(self)@.moved_right(),
            old(self)@.has_cursor() ==> final(self)@.has_cursor(),
            old(self)@.wf() ==> final(self)@.wf(),
    {
        if self.cursor_pos < byte_len_of(self.input.as_str()) {
            let chars = chars_of(self.input.as_str());
            let k: usize = count_chars_before(chars.as_slice(), self.cursor_pos);
            let total: usize = chars.len();
            proof {
                lemma_cursor_not_at_end(self@);
                lemma_boundary(chars@, k + 1);
                assert(k < total);
            }
            let head = string_of(slice_subrange(chars.as_slice(), 0, k + 1));
            assert(head@ =~= chars@.take(k + 1));
            self.cursor_pos = byte_len_of(head.as_str());
        }
    }
}

/// The end of a text is a boundary.
proof fn lemma_boundary_at_end(s: Seq<char>)
    ensures
        on_boundary(s, byte_len(s) as int),
{
    assert(s.take(s.len() as int) =~= s);
    lemma_boundary(s, s.len() as int);
}

/// There is a character before a cursor that is not at the start.
proof fn lemma_cursor_not_at_start(app: AppView)
    requires
        app.has_cursor(),
        app.cursor_pos > 0,
    ensures
        0 < app.cursor() <= app.input.len(),
{
    lemma_chars_before(app.input, app.cursor_pos);
    if app.cursor() == 0 {
        assert(app.input.take(0) =~= Seq::empty());
    }
}

/// There is a character after a cursor that is not at the end.
proof fn lemma_cursor_not_at_end(app: AppView)
    requires
        app.has_cursor(),
        app.cursor_pos < byte_len(app.input),
    ensures
        0 <= app.cursor() < app.input.len(),
{
    lemma_chars_before(app.input, app.cursor_pos);
    if app.cursor() == app.input.len() {
        assert(app.input.take(app.cursor()) =~= app.input);
    }
}

/// No more characters are before a place than there are.
proof fn lemma_chars_before(s: Seq<char>, pos: int)
    ensures
        chars_before(s, pos) <= s.len(),
    decreases s.len(),
{
    if pos > 0 && s.len() > 0 {
        lemma_chars_before(s.drop_first(), pos - char_width(s.first()));
    }
}

/// `s` on one line, cut after `max` bytes if it is longer.
pub open spec fn truncated(s: Seq<char>, max: int) -> Seq<char> {
    let oneline = replace_char(s, '\n', ' ');
    if byte_len(oneline) <= max {
        oneline
    } else {
        oneline.take(chars_before(oneline, max) as int) + "..."@
    }
}

/// Cutting `s` after `max` bytes cuts no character in two.
pub open spec fn can_truncate(s: Seq<char>, max: int) -> bool {
    let oneline = replace_char(s, '\n', ' ');
    byte_len(oneline) <= max || on_boundary(oneline, max)
}

/// `s` on one line, cut after `max` bytes if it is longer.
pub fn truncate(s: &str, max: usize) -> (short: String)
    requires
        can_truncate(s@, max as int),
    ensures
        short@ == truncated(s@, max as int),
{
    let oneline = replace_char_in(s, '\n', ' ');
    if byte_len_of(oneline.as_str()) <= max {
        oneline
    } else {
        let chars = chars_of(oneline.as_str());
        let k: usize = count_chars_before(chars.as_slice(), max);
        let mut short = string_of(slice_subrange(chars.as_slice(), 0, k));
        short.append("...");
        short
    }
}

/// Whether cutting `s` after `max` bytes cuts no character in two.
pub fn is_truncatable(s: &str, max: usize) -> (can: bool)
    ensures
        can == can_truncate(s@, max as int),
{
    let oneline = replace_char_in(s, '\n', ' ');
    if byte_len_of(oneline.as_str()) <= max {
        return true;
    }
    let chars = chars_of(oneline.as_str());
    let k: usize = count_chars_before(chars.as_slice(), max);
    let head = string_of(slice_subrange(chars.as_slice(), 0, k));
    assert(head@ =~= oneline@.take(k as int));
    byte_len_of(head.as_str()) == max
}

/// Taking a character out undoes putting it in.
pub proof fn law_delete_undoes_insert(app: AppView, c: char)
    requires
        app.has_cursor(),
    ensures
        app.inserted(c).deleted() == app,
{
    let k = app.cursor();
    let after = app.inserted(c);
    lemma_chars_before(app.input, app.cursor_pos);
    assert(after.input.take(k + 1) =~= app.input.take(k).push(c));
    assert(after.input.take(k) =~= app.input.take(k));
    lemma_byte_len_take(after.input, k);
    lemma_boundary(after.input, k + 1);
    assert(after.cursor() == k + 1);
    assert(after.input.take(k) + after.input.skip(k + 1) =~= app.input);
}

/// Moving the cursor right undoes moving it left, except at the start.
pub proof fn law_right_undoes_left(app: AppView)
    requires
        app.has_cursor(),
        app.cursor_pos > 0,
    ensures
        app.moved_left().moved_right() == app,
{
    let k = app.cursor();
    lemma_cursor_not_at_start(app);
    lemma_boundary(app.input, k - 1);
    lemma_byte_len_take(app.input, k - 1);
    lemma_byte_len_prefix(app.input, k);
}

/// Moving the cursor left undoes moving it right, except at the end.
pub proof fn law_left_undoes_right(app: AppView)
    requires
        app.has_cursor(),
        app.cursor_pos < byte_len(app.input),
    ensures
        app.moved_right().moved_left() == app,
{
    let k = app.cursor();
    lemma_cursor_not_at_end(app);
    lemma_boundary(app.input, k + 1);
    lemma_byte_len_take(app.input, k);
}

/// Going back in the input history from a draft and forward again gives the
/// draft back, with the cursor at its end.
pub proof fn law_history_keeps_draft(app: AppView)
    requires
        app.history_index is None,
        app.input_history.len() > 0,
    ensures
        app.previous().next() == (AppView {
            saved_input: Seq::empty(),
            ..app.with_input(app.input)
        }),
{
}

/// `n` steps back in the input history.
pub open spec fn steps_back(app: AppView, n: nat) -> AppView
    decreases n,
{
    if n == 0 {
        app
    } else {
        steps_back(app, (n - 1) as nat).previous()
    }
}

/// From a draft, `n` steps back show the `n`th input from the end of the
/// history, and its first from there on.
pub proof fn law_history_goes_back(app: AppView, n: nat)
    requires
        app.history_index is None,
        app.input_history.len() > 0,
        n > 0,
    ensures
        steps_back(app, n).input == app.input_history[if n <= app.input_history.len() {
            app.input_history.len() - n
        } else {
            0
        }],
        steps_back(app, n).saved_input == app.input,
{
    lemma_steps_back(app, n);
}

proof fn lemma_steps_back(app: AppView, n: nat)
    requires
        app.history_index is None,
        app.input_history.len() > 0,
        n > 0,
    ensures
        ({
            let i = if n <= app.input_history.len() {
                app.input_history.len() - n
            } else {
                0
            };
            let back = steps_back(app, n);
            &&& back.history_index == Some(i)
            &&& back.input == app.input_history[i]
            &&& back.input_history == app.input_history
            &&& back.saved_input == app.input
        }),
    decreases n,
{
    reveal_with_fuel(steps_back, 2);
    if n > 1 {
        lemma_steps_back(app, (n - 1) as nat);
    }
}

/// The state after some events, in order.
pub open spec fn after_events(app: AppView, events: Seq<AgentEventView>) -> AppView
    decreases events.len(),
{
    if events.len() == 0 {
        app
    } else {
        after_events(app, events.drop_last()).after_event(events.last())
    }
}

/// The texts told in a row of text events.
pub open spec fn told(events: Seq<AgentEventView>) -> Seq<char>
    decreases events.len(),
{
    if events.len() == 0 {
        seq![]
    } else {
        match events.last() {
            AgentEventView::Text(text) => told(events.drop_last()) + text,
            _ => told(events.drop_last()),
        }
    }
}

/// However a text is cut into pieces, once the turn ends it is one entry of the
/// chat, and nothing is left being streamed.
pub proof fn law_streamed_text_is_one_entry(app: AppView, events: Seq<AgentEventView>)
    requires
        app.streaming_text.len() == 0,
        forall|i: int| 0 <= i < events.len() ==> events[i] is Text,
        told(events).len() > 0,
    ensures
        after_events(app, events).after_event(AgentEventView::TurnEnd) == (AppView {
            chat: app.chat.push(ChatEntryView::AssistantText(told(events))),
            streaming_text: Seq::empty(),
            is_streaming: false,
            ..app
        }),
{
    lemma_streamed(app, events);
}

proof fn lemma_streamed(app: AppView, events: Seq<AgentEventView>)
    requires
        app.streaming_text.len() == 0,
        forall|i: int| 0 <= i < events.len() ==> events[i] is Text,
    ensures
        after_events(app, events) == (AppView { streaming_text: told(events), ..app }),
    decreases events.len(),
{
    if events.len() == 0 {
        assert(app.streaming_text =~= told(events));
    } else {
        lemma_streamed(app, events.drop_last());
        assert(events.last() is Text);
    }
}

/// No event takes an entry out of the chat or changes one.
pub proof fn law_events_only_add_to_the_chat(app: AppView, event: AgentEventView)
    ensures
        app.chat.is_prefix_of(app.after_event(event).chat),
{
}

/// After an event that ends a turn nothing is being streamed.
pub proof fn law_turn_ends_streaming(app: AppView, event: AgentEventView)
    requires
        event is TurnEnd || event is Error,
    ensures
        !app.after_event(event).is_streaming,
        app.after_event(event).streaming_text.len() == 0,
{
}

/// Scrolling never goes past the bottom, and at the bottom the view follows
/// what is added.
pub proof fn law_scrolling_down_stops_at_the_bottom(app: AppView)
    ensures
        app.scrolled_down().scroll_offset <= app.bottom(),
        app.scrolled_down().scroll_offset == app.bottom() ==> app.scrolled_down().autoscroll,
{
}

/// Scrolling down undoes scrolling up where neither end of the text is near.
pub proof fn law_down_undoes_up(app: AppView)
    requires
        3 <= app.scroll_offset <= app.bottom(),
    ensures
        app.scrolled_up().scrolled_down().scroll_offset == app.scroll_offset,
{
}

/// What the agent does leaves alone what the user is typing.
pub proof fn law_events_leave_the_input_alone(app: AppView, event: AgentEventView)
    ensures
        app.after_event(event).input == app.input,
        app.after_event(event).cursor_pos == app.cursor_pos,
        app.wf() ==> app.after_event(event).wf(),
{
}

/// A text that is cut is on one line and at most three bytes longer than asked
/// for.
pub proof fn law_truncated_text_is_short(s: Seq<char>, max: int)
    requires
        0 <= max,
        can_truncate(s, max),
    ensures
        !truncated(s, max).contains('\n'),
        byte_len(truncated(s, max)) <= max + 3,
{
    let oneline = replace_char(s, '\n', ' ');
    reveal_strlit("...");
    assert forall|i: int| 0 <= i < truncated(s, max).len() implies truncated(s, max)[i] != '\n' by {
        let k = chars_before(oneline, max) as int;
        lemma_chars_before(oneline, max);
        if byte_len(oneline) > max && i >= k {
            assert(truncated(s, max)[i] == "..."@[i - k]);
        }
    }
    if byte_len(oneline) > max {
        let k = chars_before(oneline, max) as int;
        let dots = "..."@;
        lemma_byte_len_concat(oneline.take(k), dots);
        assert(dots =~= seq!['.'] + (seq!['.'] + seq!['.']));
        lemma_byte_len_concat(seq!['.'], seq!['.'] + seq!['.']);
        lemma_byte_len_concat(seq!['.'], seq!['.']);
        lemma_byte_len_one('.');
        assert(char_width('.') == 1);
    }
}

impl AppView {
    /// The cursor stands between the texts `left` and `right`, which make up the input.
    pub open spec fn is_between(self, left: Seq<char>, right: Seq<char>) -> bool {
        self.input == left + right && self.cursor_pos == encode_utf8(left).len()
    }

    /// The two states are the same but for the input line and its history.
    pub open spec fn same_but_input(self, other: AppView) -> bool {
        &&& self.chat == other.chat
        &&& self.streaming_text == other.streaming_text
        &&& self.is_streaming == other.is_streaming
        &&& self.scroll_offset == other.scroll_offset
        &&& self.content_height == other.content_height
        &&& self.viewport_height == other.viewport_height
        &&& self.quit_pending == other.quit_pending
        &&& self.autoscroll == other.autoscroll
        &&& self.focus == other.focus
        &&& self.total_input_tokens == other.total_input_tokens
        &&& self.total_output_tokens == other.total_output_tokens
    }

    /// The two states have the same input line and the same history of it.
    pub open spec fn same_input(self, other: AppView) -> bool {
        &&& self.input == other.input
        &&& self.cursor_pos == other.cursor_pos
        &&& self.same_history(other)
    }

    /// The two states have the same input history.
    pub open spec fn same_history(self, other: AppView) -> bool {
        &&& self.input_history == other.input_history
        &&& self.history_index == other.history_index
        &&& self.saved_input == other.saved_input
    }
}

/// Typing puts a character in where the cursor stands, and the cursor behind it; taking a
/// character out takes out the one before the cursor; moving the cursor moves it by one
/// character. Nothing else changes.
pub proof fn law_keys_work_at_the_cursor(
    app: AppView,
    left: Seq<char>,
    right: Seq<char>,
    c: char,
)
    requires
        app.is_between(left, right),
    ensures
        app.inserted(c).is_between(left + seq![c], right),
        app.inserted(c).same_but_input(app) && app.inserted(c).same_history(app),
        left.len() == 0 ==> app.deleted() == app && app.moved_left() == app,
        left.len() > 0 ==> app.deleted().is_between(left.take(left.len() - 1), right),
        app.deleted().same_but_input(app) && app.deleted().same_history(app),
        left.len() > 0 ==> app.moved_left().is_between(
            left.take(left.len() - 1),
            seq![left.last()] + right,
        ),
        app.moved_left().same_but_input(app) && app.moved_left().same_history(app),
        right.len() == 0 ==> app.moved_right() == app,
        right.len() > 0 ==> app.moved_right().is_between(left + seq![right[0]], right.skip(1)),
        app.moved_right().same_but_input(app) && app.moved_right().same_history(app),
{
    let k = left.len() as int;
    law_characters_before_a_place(left, right);
    assert(app.cursor() == k);
    assert(app.input.take(k) =~= left);
    assert(app.input.skip(k) =~= right);
    assert(left.push(c) =~= left + seq![c]);
    lemma_byte_len_concat(left, seq![c]);
    lemma_byte_len_one(c);
    lemma_byte_len_concat(left, right);
    if k > 0 {
        let head = left.take(k - 1);
        assert(app.input.take(k - 1) =~= head);
        assert(left =~= head + seq![left.last()]);
        lemma_byte_len_concat(head, seq![left.last()]);
        lemma_byte_len_one(left.last());
        assert(app.input =~= head + (seq![left.last()] + right));
    } else {
        assert(left =~= Seq::empty());
        assert(encode_utf8(left).len() == 0);
    }
    if right.len() > 0 {
        assert(app.input.take(k + 1) =~= left + seq![right[0]]);
        assert(right =~= seq![right[0]] + right.skip(1));
        lemma_byte_len_concat(seq![right[0]], right.skip(1));
        lemma_byte_len_one(right[0]);
        assert(app.input =~= (left + seq![right[0]]) + right.skip(1));
    } else {
        assert(right =~= Seq::empty());
        assert(encode_utf8(right).len() == 0);
    }
}

/// Input that is handed over leaves an empty line. It comes last in the history, unless it
/// is all white space, and the history is left again.
pub proof fn law_input_is_handed_over(app: AppView)
    ensures
        ({
            let after = app.taken();
            &&& after.same_but_input(app)
            &&& after.input.len() == 0
            &&& after.cursor_pos == 0
            &&& after.history_index is None
            &&& after.saved_input.len() == 0
            &&& after.input_history == if exists|i: int|
                0 <= i < app.input.len() && !is_space(#[trigger] app.input[i]) {
                app.input_history + seq![app.input]
            } else {
                app.input_history
            }
        }),
{
    law_blank_is_all_white_space(app.input);
    assert(app.input_history.push(app.input) =~= app.input_history + seq![app.input]);
}

/// One step back in the history shows the input before, and one step forward the one
/// behind it; before the first there is none, and behind the last comes the draft. The
/// cursor is at the end of what is shown, and the history itself stays.
pub proof fn law_history_is_walked_step_by_step(app: AppView, i: int)
    requires
        0 <= i < app.input_history.len(),
        app.history_index == Some(i),
    ensures
        ({
            let back = app.previous();
            let on = app.next();
            &&& back.same_but_input(app) && on.same_but_input(app)
            &&& back.input_history == app.input_history && on.input_history == app.input_history
            &&& i == 0 ==> back == app
            &&& i > 0 ==> {
                &&& back.history_index == Some(i - 1)
                &&& back.saved_input == app.saved_input
                &&& back.is_between(app.input_history[i - 1], Seq::empty())
            }
            &&& i + 1 < app.input_history.len() ==> {
                &&& on.history_index == Some(i + 1)
                &&& on.saved_input == app.saved_input
                &&& on.is_between(app.input_history[i + 1], Seq::empty())
            }
            &&& i + 1 == app.input_history.len() ==> {
                &&& on.history_index is None
                &&& on.saved_input.len() == 0
                &&& on.is_between(app.saved_input, Seq::empty())
            }
        }),
{
    if i > 0 {
        let shown = app.input_history[i - 1];
        assert(shown + Seq::empty() =~= shown);
    }
    if i + 1 < app.input_history.len() {
        let shown = app.input_history[i + 1];
        assert(shown + Seq::empty() =~= shown);
    }
    assert(app.saved_input + Seq::empty() =~= app.saved_input);
}

/// From a draft one step back shows the last input and keeps the draft; a step forward,
/// and a step back where there is no history, changes nothing.
pub proof fn law_history_begins_at_its_end(app: AppView)
    requires
        app.history_index is None,
    ensures
        app.next() == app,
        app.input_history.len() == 0 ==> app.previous() == app,
        app.input_history.len() > 0 ==> {
            let back = app.previous();
            let n = app.input_history.len() as int;
            &&& back.same_but_input(app)
            &&& back.input_history == app.input_history
            &&& back.saved_input == app.input
            &&& back.history_index == Some(n - 1)
            &&& back.is_between(app.input_history[n - 1], Seq::empty())
        },
{
    if app.input_history.len() > 0 {
        let shown = app.input_history.last();
        assert(shown + Seq::empty() =~= shown);
    }
}

/// Scrolling moves the view by three lines, but not beyond the first or the last. After
/// scrolling up the view no longer follows the chat; it does again at the bottom.
pub proof fn law_scrolling_goes_by_three_lines(app: AppView)
    ensures
        ({
            let up = app.scrolled_up();
            &&& up == (AppView { autoscroll: false, scroll_offset: up.scroll_offset, ..app })
            &&& app.scroll_offset >= 3 ==> up.scroll_offset == app.scroll_offset - 3
            &&& app.scroll_offset < 3 ==> up.scroll_offset == 0
        }),
        ({
            let down = app.scrolled_down();
            let last = if app.content_height > app.viewport_height {
                app.content_height - app.viewport_height
            } else {
                0
            };
            &&& down == (AppView {
                autoscroll: down.autoscroll,
                scroll_offset: down.scroll_offset,
                ..app
            })
            &&& app.scroll_offset + 3 <= last ==> down.scroll_offset == app.scroll_offset + 3
            &&& app.scroll_offset + 3 > last ==> down.scroll_offset == last
            &&& down.autoscroll <==> app.autoscroll || down.scroll_offset == last
        }),
{
}

/// What the agent tells is shown: a text is added to what is being streamed, and a call, a
/// result and an error each become the last entry. Before a call, before an error and at
/// the end of a turn, what has been streamed becomes an entry of its own.
pub proof fn law_events_are_shown(app: AppView, event: AgentEventView)
    ensures
        ({
            let after = app.after_event(event);
            let streamed = if app.streaming_text.len() > 0 {
                app.chat + seq![ChatEntryView::AssistantText(app.streaming_text)]
            } else {
                app.chat
            };
            &&& after.same_input(app)
            &&& after.scroll_offset == app.scroll_offset
            &&& after.content_height == app.content_height
            &&& after.viewport_height == app.viewport_height
            &&& after.quit_pending == app.quit_pending
            &&& after.autoscroll == app.autoscroll
            &&& after.focus == app.focus
            &&& !(event is Usage) ==> after.total_input_tokens == app.total_input_tokens
                && after.total_output_tokens == app.total_output_tokens
            &&& match event {
                AgentEventView::Text(text) => {
                    &&& after.chat == app.chat
                    &&& after.streaming_text == app.streaming_text + text
                    &&& after.is_streaming == app.is_streaming
                },
                AgentEventView::ToolCall { name, input } => {
                    &&& after.chat == streamed + seq![ChatEntryView::ToolCall { name, input }]
                    &&& after.streaming_text.len() == 0
                    &&& after.is_streaming == app.is_streaming
                },
                AgentEventView::ToolResult { name, output } => {
                    &&& after.chat == app.chat + seq![ChatEntryView::ToolResult { name, output }]
                    &&& after.streaming_text == app.streaming_text
                    &&& after.is_streaming == app.is_streaming
                },
                AgentEventView::Usage { input_tokens, output_tokens } => {
                    &&& after.chat == app.chat
                    &&& after.streaming_text == app.streaming_text
                    &&& after.is_streaming == app.is_streaming
                    &&& app.total_input_tokens + input_tokens <= u64::MAX
                        ==> after.total_input_tokens == app.total_input_tokens + input_tokens
                    &&& app.total_input_tokens + input_tokens > u64::MAX
                        ==> after.total_input_tokens == u64::MAX
                    &&& app.total_output_tokens + output_tokens <= u64::MAX
                        ==> after.total_output_tokens == app.total_output_tokens + output_tokens
                    &&& app.total_output_tokens + output_tokens > u64::MAX
                        ==> after.total_output_tokens == u64::MAX
                },
                AgentEventView::TurnEnd => {
                    &&& after.chat == streamed
                    &&& after.streaming_text.len() == 0
                    &&& !after.is_streaming
                },
                AgentEventView::Error(message) => {
                    &&& after.chat == streamed + seq![ChatEntryView::Error(message)]
                    &&& after.streaming_text.len() == 0
                    &&& !after.is_streaming
                },
            }
        }),
{
    let after = app.after_event(event);
    let said = ChatEntryView::AssistantText(app.streaming_text);
    assert(app.chat.push(said) =~= app.chat + seq![said]);
    match event {
        AgentEventView::ToolCall { name, input } => {
            let entry = ChatEntryView::ToolCall { name, input };
            assert(app.flushed().chat.push(entry) =~= app.flushed().chat + seq![entry]);
        },
        AgentEventView::ToolResult { name, output } => {
            let entry = ChatEntryView::ToolResult { name, output };
            assert(app.chat.push(entry) =~= app.chat + seq![entry]);
        },
        AgentEventView::Error(message) => {
            let entry = ChatEntryView::Error(message);
            assert(app.flushed().chat.push(entry) =~= app.flushed().chat + seq![entry]);
        },
        _ => {},
    }
}

/// An earlier conversation is shown message by message and text by text, as what the user
/// said or the agent said; other parts, and messages of unknown roles, are not shown.
pub proof fn law_conversation_is_shown_text_by_text(
    messages: Seq<MessageView>,
    message: MessageView,
)
    ensures
        entries_of(Seq::empty()) == Seq::<ChatEntryView>::empty(),
        entries_of(messages.push(message)) == entries_of(messages) + match message.role {
            Role::User => texts_in(message.content).map_values(
                |text: Seq<char>| ChatEntryView::User(text),
            ),
            Role::Assistant => texts_in(message.content).map_values(
                |text: Seq<char>| ChatEntryView::AssistantText(text),
            ),
            Role::Other => Seq::empty(),
        },
{
    assert(messages.push(message).drop_last() =~= messages);
    lemma_block_entries(message.role, message.content);
}

proof fn lemma_block_entries(role: Role, blocks: Seq<BlockView>)
    ensures
        block_entries(role, blocks) == match role {
            Role::User => texts_in(blocks).map_values(|text: Seq<char>| ChatEntryView::User(text)),
            Role::Assistant => texts_in(blocks).map_values(
                |text: Seq<char>| ChatEntryView::AssistantText(text),
            ),
            Role::Other => Seq::empty(),
        },
    decreases blocks.len(),
{
    let shown = match role {
        Role::User => texts_in(blocks).map_values(|text: Seq<char>| ChatEntryView::User(text)),
        Role::Assistant => texts_in(blocks).map_values(
            |text: Seq<char>| ChatEntryView::AssistantText(text),
        ),
        Role::Other => Seq::empty(),
    };
    if blocks.len() > 0 {
        lemma_block_entries(role, blocks.drop_last());
    }
    assert(block_entries(role, blocks) =~= shown);
}

/// A text is shown on one line, with a blank for each line feed. One that takes more bytes
/// than asked for is cut after that many, with three dots behind.
pub proof fn law_long_text_is_cut(left: Seq<char>, right: Seq<char>, max: int)
    requires
        max == encode_utf8(left).len(),
    ensures
        right.len() == 0 ==> truncated(left + right, max) == replace_char(left, '\n', ' '),
        right.len() > 0 ==> truncated(left + right, max) == replace_char(left, '\n', ' ') + seq![
            '.',
            '.',
            '.',
        ],
        can_truncate(left + right, max),
    decreases left.len(),
{
    reveal_strlit("...");
    assert("..."@ =~= seq!['.', '.', '.']);
    let shown = replace_char(left, '\n', ' ');
    let rest = replace_char(right, '\n', ' ');
    let oneline = replace_char(left + right, '\n', ' ');
    assert(oneline =~= shown + rest);
    lemma_same_width(left);
    lemma_byte_len_concat(shown, rest);
    law_characters_before_a_place(shown, rest);
    if right.len() == 0 {
        assert(rest =~= Seq::empty());
        assert(oneline =~= shown);
    } else {
        assert(rest =~= seq![rest[0]] + rest.skip(1));
        lemma_byte_len_concat(seq![rest[0]], rest.skip(1));
        lemma_byte_len_one(rest[0]);
        assert(oneline.take(shown.len() as int) =~= shown);
    }
}

/// A text that takes no more bytes than asked for is shown whole.
pub proof fn law_short_text_is_shown_whole(s: Seq<char>, max: int)
    requires
        encode_utf8(s).len() <= max,
    ensures
        truncated(s, max) == replace_char(s, '\n', ' '),
        can_truncate(s, max),
{
    lemma_same_width(s);
}

/// A blank takes as many bytes as a line feed.
proof fn lemma_same_width(s: Seq<char>)
    ensures
        byte_len(replace_char(s, '\n', ' ')) == byte_len(s),
    decreases s.len(),
{
    let shown = replace_char(s, '\n', ' ');
    if s.len() > 0 {
        let rest = s.drop_first();
        lemma_same_width(rest);
        assert(s =~= seq![s[0]] + rest);
        assert(shown =~= seq![shown[0]] + replace_char(rest, '\n', ' '));
        lemma_byte_len_concat(seq![s[0]], rest);
        lemma_byte_len_concat(seq![shown[0]], replace_char(rest, '\n', ' '));
        lemma_byte_len_one(s[0]);
        lemma_byte_len_one(shown[0]);
        assert(char_width('\n') == 1 && char_width(' ') == 1);
    } else {
        assert(shown =~= s);
    }
}

/// A text can be cut exactly where it is short enough, or where a character begins at the
/// place at which it is to be cut.
pub proof fn law_text_is_cut_between_characters(s: Seq<char>, max: int)
    requires
        0 <= max,
    ensures
        can_truncate(s, max) <==> {
            ||| encode_utf8(s).len() <= max
            ||| exists|k: int| 0 <= k <= s.len() && encode_utf8(#[trigger] s.take(k)).len() == max
        },
{
    let oneline = replace_char(s, '\n', ' ');
    lemma_same_width(s);
    if on_boundary(oneline, max) {
        let k = chars_before(oneline, max) as int;
        lemma_chars_before(oneline, max);
        assert(oneline.take(k) =~= replace_char(s.take(k), '\n', ' '));
        lemma_same_width(s.take(k));
        assert(encode_utf8(s.take(k)).len() == max);
    }
    if exists|k: int| 0 <= k <= s.len() && encode_utf8(#[trigger] s.take(k)).len() == max {
        let k = choose|k: int|
            0 <= k <= s.len() && encode_utf8(#[trigger] s.take(k)).len() == max;
        assert(oneline.take(k) =~= replace_char(s.take(k), '\n', ' '));
        lemma_same_width(s.take(k));
        lemma_boundary(oneline, k);
    }
}

}
