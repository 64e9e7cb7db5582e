//! The agent: what it says to the model, what it makes of the replies, and what
//! it tells while it works.
use vstd::prelude::*;

use crate::conversation::{
    block_views, message_views, BlockView, ContentBlock, Message, MessageView, Role, ToolResult,
    ToolResultView, ToolUse, ToolUseView,
};
use crate::document::{
    document_of, entries_tree, format_document, json_of, json_value_to_document, Document,
    DocumentTree,
};
use crate::json::{json_parse, json_write, parse_json};
use crate::text::{maybe_text, starts_with};

verus! {

/// What the agent tells while it works.
#[derive(Debug, Clone)]
pub enum AgentEvent {
    Text(String),
    ToolCall { name: String, input: String },
    ToolResult { name: String, output: String },
    Usage { input_tokens: u64, output_tokens: u64 },
    TurnEnd,
    Error(String),
}

pub enum AgentEventView {
    Text(Seq<char>),
    ToolCall { name: Seq<char>, input: Seq<char> },
    ToolResult { name: Seq<char>, output: Seq<char> },
    Usage { input_tokens: u64, output_tokens: u64 },
    TurnEnd,
    Error(Seq<char>),
}

impl View for AgentEvent {
    type V = AgentEventView;

    open spec fn view(&self) -> AgentEventView {
        match self {
            AgentEvent::Text(text) => AgentEventView::Text(text@),
            AgentEvent::ToolCall { name, input } => AgentEventView::ToolCall {
                name: name@,
                input: input@,
            },
            AgentEvent::ToolResult { name, output } => AgentEventView::ToolResult {
                name: name@,
                output: output@,
            },
            AgentEvent::Usage { input_tokens, output_tokens } => AgentEventView::Usage {
                input_tokens: *input_tokens,
                output_tokens: *output_tokens,
            },
            AgentEvent::TurnEnd => AgentEventView::TurnEnd,
            AgentEvent::Error(message) => AgentEventView::Error(message@),
        }
    }
}


pub const DEFAULT_SYSTEM_PROMPT: &'static str =
    "You are a coding assistant. You have access to tools for reading files, writing files, running shell commands, and listing directory contents. Use these tools to help the user with their coding tasks.";

pub const DEFAULT_REGION: &'static str = "us-east-1";

/// A model by its ARN. A bare model ID is taken for a foundation model of the
/// region.
pub open spec fn model_arn(
    model_id: Seq<char>,
    region: Option<Seq<char>>,
    configured_region: Option<Seq<char>>,
) -> Seq<char> {
    if "arn:"@.is_prefix_of(model_id) {
        model_id
    } else {
        let region = match (region, configured_region) {
            (Some(region), _) => region,
            (None, Some(region)) => region,
            (None, None) => DEFAULT_REGION@,
        };
        "arn:aws:bedrock:"@ + region + "::foundation-model/"@ + model_id
    }
}

/// Expands a model ID to an ARN. `region` is the one that was asked for, and
/// `configured_region` the one of the AWS configuration.
pub fn resolve_model_id(
    model_id: String,
    region: Option<String>,
    configured_region: Option<String>,
) -> (arn: String)
    ensures
        arn@ == model_arn(model_id@, maybe_text(region), maybe_text(configured_region)),
{
    if starts_with(model_id.as_str(), "arn:") {
        return model_id;
    }
    let region = match region {
        Some(region) => region,
        None => match configured_region {
            Some(region) => region,
            None => DEFAULT_REGION.to_string(),
        },
    };
    let mut arn = "arn:aws:bedrock:".to_string();
    arn.append(region.as_str());
    arn.append("::foundation-model/");
    arn.append(model_id.as_str());
    arn
}

/// Something that the model sends while it replies.
pub enum StreamEvent {
    ToolStart { tool_use_id: String, name: String },
    Text(String),
    ToolInput(String),
    BlockStop,
    MessageStop,
    Other,
}

pub enum StreamEventView {
    ToolStart { tool_use_id: Seq<char>, name: Seq<char> },
    Text(Seq<char>),
    ToolInput(Seq<char>),
    BlockStop,
    MessageStop,
    Other,
}

impl View for StreamEvent {
    type V = StreamEventView;

    open spec fn view(&self) -> StreamEventView {
        match self {
            StreamEvent::ToolStart { tool_use_id, name } => StreamEventView::ToolStart {
                tool_use_id: tool_use_id@,
                name: name@,
            },
            StreamEvent::Text(text) => StreamEventView::Text(text@),
            StreamEvent::ToolInput(input) => StreamEventView::ToolInput(input@),
            StreamEvent::BlockStop => StreamEventView::BlockStop,
            StreamEvent::MessageStop => StreamEventView::MessageStop,
            StreamEvent::Other => StreamEventView::Other,
        }
    }
}

/// What has come of a reply so far. A tool use is being received while
/// `tool_name` is not empty.
pub struct Reply {
    pub text: String,
    pub tool_uses: Vec<ToolUse>,
    pub tool_name: String,
    pub tool_id: String,
    pub tool_input: String,
    pub ended: bool,
}

#[verifier::ext_equal]
pub struct ReplyView {
    pub text: Seq<char>,
    pub tool_uses: Seq<ToolUseView>,
    pub tool_name: Seq<char>,
    pub tool_id: Seq<char>,
    pub tool_input: Seq<char>,
    pub ended: bool,
}

pub open spec fn tool_use_views(tool_uses: Seq<ToolUse>) -> Seq<ToolUseView> {
    tool_uses.map_values(|t: ToolUse| t@)
}

pub open spec fn tool_result_views(results: Seq<ToolResult>) -> Seq<ToolResultView> {
    results.map_values(|r: ToolResult| r@)
}

impl View for Reply {
    type V = ReplyView;

    open spec fn view(&self) -> ReplyView {
        ReplyView {
            text: self.text@,
            tool_uses: tool_use_views(self.tool_uses@),
            tool_name: self.tool_name@,
            tool_id: self.tool_id@,
            tool_input: self.tool_input@,
            ended: self.ended,
        }
    }
}

/// The input that a tool gets when the model sent `text` for it: an empty
/// object where that is not JSON.
pub open spec fn tool_input_of(text: Seq<char>) -> DocumentTree {
    match json_parse(text) {
        Ok(tree) => document_of(tree),
        Err(_) => DocumentTree::Object(Map::empty()),
    }
}

impl ReplyView {
    pub open spec fn empty() -> ReplyView {
        ReplyView {
            text: Seq::empty(),
            tool_uses: Seq::empty(),
            tool_name: Seq::empty(),
            tool_id: Seq::empty(),
            tool_input: Seq::empty(),
            ended: false,
        }
    }

    pub open spec fn after(self, event: StreamEventView) -> ReplyView {
        match event {
            StreamEventView::ToolStart { tool_use_id, name } => ReplyView {
                tool_name: name,
                tool_id: tool_use_id,
                tool_input: Seq::empty(),
                ..self
            },
            StreamEventView::Text(text) => ReplyView { text: self.text + text, ..self },
            StreamEventView::ToolInput(input) => ReplyView {
                tool_input: self.tool_input + input,
                ..self
            },
            StreamEventView::BlockStop => if self.tool_name.len() == 0 {
                self
            } else {
                ReplyView {
                    tool_uses: self.tool_uses.push(
                        ToolUseView {
                            tool_use_id: self.tool_id,
                            name: self.tool_name,
                            input: tool_input_of(self.tool_input),
                        },
                    ),
                    tool_name: Seq::empty(),
                    tool_id: Seq::empty(),
                    tool_input: Seq::empty(),
                    ..self
                }
            },
            StreamEventView::MessageStop => ReplyView { ended: true, ..self },
            StreamEventView::Other => self,
        }
    }

    /// What has come after some events, in order.
    pub open spec fn after_all(self, events: Seq<StreamEventView>) -> ReplyView
        decreases events.len(),
    {
        if events.len() == 0 {
            self
        } else {
            self.after_all(events.drop_last()).after(events.last())
        }
    }
}

/// What is told of an event of the stream at once.
pub open spec fn told_at_once(event: StreamEventView) -> Option<AgentEventView> {
    match event {
        StreamEventView::Text(text) => Some(AgentEventView::Text(text)),
        _ => None,
    }
}

/// The input that a tool gets when the model sent `text` for it.
fn parse_tool_input(text: &str) -> (input: Document)
    ensures
        input.tree() == tool_input_of(text@),
{
    match parse_json(text) {
        Ok(json) => json_value_to_document(&json),
        Err(_) => {
            let entries: Vec<(String, Document)> = Vec::new();
            assert(entries_tree(entries@) =~= Map::empty());
            Document::Object(entries)
        },
    }
}

impl Reply {
    pub fn new() -> (reply: Reply)
        ensures
            reply@ == ReplyView::empty(),
    {
        let reply = Reply {
            text: String::new(),
            tool_uses: Vec::new(),
            tool_name: String::new(),
            tool_id: String::new(),
            tool_input: String::new(),
            ended: false,
        };
        assert(tool_use_views(reply.tool_uses@) =~= Seq::empty());
        reply
    }

    /// Takes in an event of the stream and gives what is to be told of it.
    pub fn receive(&mut self, event: StreamEvent) -> (told: Option<AgentEvent>)
        ensures
            final(self)@ == old(self)@.after(event@),
            match told {
                Some(told) => told_at_once(event@) == Some(told@),
                None => told_at_once(event@) is None,
            },
    {
        match event {
            StreamEvent::ToolStart { tool_use_id, name } => {
                self.tool_name = name;
                self.tool_id = tool_use_id;
                self.tool_input = String::new();
                None
            },
            StreamEvent::Text(text) => {
                self.text.append(text.as_str());
                Some(AgentEvent::Text(text))
            },
            StreamEvent::ToolInput(input) => {
                self.tool_input.append(input.as_str());
                None
            },
            StreamEvent::BlockStop => {
                if !self.tool_name.as_str().is_empty() {
                    let ghost before = self.tool_uses@;
                    let input = parse_tool_input(self.tool_input.as_str());
                    let mut tool_use_id = String::new();
                    let mut name = String::new();
                    core::mem::swap(&mut tool_use_id, &mut self.tool_id);
                    core::mem::swap(&mut name, &mut self.tool_name);
                    self.tool_input = String::new();
                    let tool_use = ToolUse { tool_use_id, name, input };
                    let ghost added = tool_use@;
                    self.tool_uses.push(tool_use);
                    assert(tool_use_views(self.tool_uses@) =~= tool_use_views(before).push(added));
                }
                None
            },
            StreamEvent::MessageStop => {
                self.ended = true;
                None
            },
            StreamEvent::Other => None,
        }
    }
}

/// What the agent is about to do.
pub enum Phase {
    /// Nothing, until the user says something.
    Idle,
    /// Asking the model for a reply.
    Calling,
    /// Running the tools that the model asked for. Those with a result are done.
    Running { tool_uses: Vec<ToolUse>, results: Vec<ToolResult> },
    /// Saving the session.
    Saving,
}

pub enum PhaseView {
    Idle,
    Calling,
    Running { tool_uses: Seq<ToolUseView>, results: Seq<ToolResultView> },
    Saving,
}

impl View for Phase {
    type V = PhaseView;

    open spec fn view(&self) -> PhaseView {
        match self {
            Phase::Idle => PhaseView::Idle,
            Phase::Calling => PhaseView::Calling,
            Phase::Running { tool_uses, results } => PhaseView::Running {
                tool_uses: tool_use_views(tool_uses@),
                results: tool_result_views(results@),
            },
            Phase::Saving => PhaseView::Saving,
        }
    }
}

/// What came of what the agent was about to do.
pub enum Outcome {
    Replied { text: String, tool_uses: Vec<ToolUse> },
    CallFailed(String),
    ToolDone(ToolResult),
    Saved,
}

pub enum OutcomeView {
    Replied { text: Seq<char>, tool_uses: Seq<ToolUseView> },
    CallFailed(Seq<char>),
    ToolDone(ToolResultView),
    Saved,
}

impl View for Outcome {
    type V = OutcomeView;

    open spec fn view(&self) -> OutcomeView {
        match self {
            Outcome::Replied { text, tool_uses } => OutcomeView::Replied {
                text: text@,
                tool_uses: tool_use_views(tool_uses@),
            },
            Outcome::CallFailed(error) => OutcomeView::CallFailed(error@),
            Outcome::ToolDone(result) => OutcomeView::ToolDone(result@),
            Outcome::Saved => OutcomeView::Saved,
        }
    }
}

pub struct Agent {
    pub model_id: String,
    pub system_prompt: String,
    pub session_id: String,
    pub messages: Vec<Message>,
    pub phase: Phase,
}

#[verifier::ext_equal]
pub struct AgentView {
    pub model_id: Seq<char>,
    pub system_prompt: Seq<char>,
    pub session_id: Seq<char>,
    pub messages: Seq<MessageView>,
    pub phase: PhaseView,
}

impl View for Agent {
    type V = AgentView;

    open spec fn view(&self) -> AgentView {
        AgentView {
            model_id: self.model_id@,
            system_prompt: self.system_prompt@,
            session_id: self.session_id@,
            messages: message_views(self.messages@),
            phase: self.phase@,
        }
    }
}

/// The parts of a message of the model: what it says, if anything, and then the
/// tools that it asks for.
pub open spec fn reply_content(text: Seq<char>, tool_uses: Seq<ToolUseView>) -> Seq<BlockView> {
    let said = if text.len() == 0 {
        Seq::empty()
    } else {
        seq![BlockView::Text(text)]
    };
    said + tool_uses.map_values(|t: ToolUseView| BlockView::ToolUse(t))
}

/// The message in which the model gets the results of tools.
pub open spec fn results_message(results: Seq<ToolResultView>) -> MessageView {
    MessageView {
        role: Role::User,
        content: results.map_values(|r: ToolResultView| BlockView::ToolResult(r)),
    }
}

/// What is told before a tool runs.
pub open spec fn call_told(tool_use: ToolUseView) -> AgentEventView {
    AgentEventView::ToolCall { name: tool_use.name, input: json_write(json_of(tool_use.input)) }
}

/// What is told after a tool has run.
pub open spec fn result_told(tool_use: ToolUseView, result: ToolResultView) -> AgentEventView {
    AgentEventView::ToolResult { name: tool_use.name, output: result.text }
}

impl AgentView {
    /// While tools run, at least one of them has no result yet.
    pub open spec fn wf(self) -> bool {
        match self.phase {
            PhaseView::Running { tool_uses, results } => results.len() < tool_uses.len(),
            _ => true,
        }
    }

    /// The user said something.
    pub open spec fn sent(self, user_input: Seq<char>) -> AgentView {
        AgentView {
            messages: self.messages.push(
                MessageView { role: Role::User, content: seq![BlockView::Text(user_input)] },
            ),
            phase: PhaseView::Calling,
            ..self
        }
    }

    /// `outcome` is of what the agent was about to do.
    pub open spec fn fits(self, outcome: OutcomeView) -> bool {
        match (self.phase, outcome) {
            (PhaseView::Calling, OutcomeView::Replied { .. }) => true,
            (PhaseView::Calling, OutcomeView::CallFailed(_)) => true,
            (PhaseView::Running { tool_uses, results }, OutcomeView::ToolDone(result)) => {
                result.tool_use_id == tool_uses[results.len() as int].tool_use_id
            },
            (PhaseView::Saving, OutcomeView::Saved) => true,
            _ => false,
        }
    }

    pub open spec fn stepped(self, outcome: OutcomeView) -> AgentView {
        match (self.phase, outcome) {
            (PhaseView::Calling, OutcomeView::Replied { text, tool_uses }) => {
                let content = reply_content(text, tool_uses);
                if content.len() == 0 {
                    AgentView { phase: PhaseView::Saving, ..self }
                } else {
                    AgentView {
                        messages: self.messages.push(
                            MessageView { role: Role::Assistant, content },
                        ),
                        phase: if tool_uses.len() == 0 {
                            PhaseView::Saving
                        } else {
                            PhaseView::Running { tool_uses, results: Seq::empty() }
                        },
                        ..self
                    }
                }
            },
            (PhaseView::Calling, OutcomeView::CallFailed(_)) => AgentView {
                messages: if self.messages.len() == 0 {
                    self.messages
                } else {
                    self.messages.drop_last()
                },
                phase: PhaseView::Saving,
                ..self
            },
            (PhaseView::Running { tool_uses, results }, OutcomeView::ToolDone(result)) => {
                let results = results.push(result);
                if results.len() < tool_uses.len() {
                    AgentView { phase: PhaseView::Running { tool_uses, results }, ..self }
                } else {
                    AgentView {
                        messages: self.messages.push(results_message(results)),
                        phase: PhaseView::Calling,
                        ..self
                    }
                }
            },
            (PhaseView::Saving, OutcomeView::Saved) => AgentView {
                phase: PhaseView::Idle,
                ..self
            },
            _ => self,
        }
    }

    /// What is told when `outcome` is known.
    pub open spec fn told(self, outcome: OutcomeView) -> Seq<AgentEventView> {
        match (self.phase, outcome) {
            (PhaseView::Calling, OutcomeView::Replied { text, tool_uses }) => {
                if tool_uses.len() == 0 {
                    seq![]
                } else {
                    seq![call_told(tool_uses[0])]
                }
            },
            (PhaseView::Calling, OutcomeView::CallFailed(error)) => seq![
                AgentEventView::Error(error),
            ],
            (PhaseView::Running { tool_uses, results }, OutcomeView::ToolDone(result)) => {
                let i = results.len() as int;
                if i + 1 < tool_uses.len() {
                    seq![result_told(tool_uses[i], result), call_told(tool_uses[i + 1])]
                } else {
                    seq![result_told(tool_uses[i], result)]
                }
            },
            (PhaseView::Saving, OutcomeView::Saved) => seq![AgentEventView::TurnEnd],
            _ => seq![],
        }
    }
}

pub open spec fn event_views(events: Seq<AgentEvent>) -> Seq<AgentEventView> {
    events.map_values(|e: AgentEvent| e@)
}

/// What is told before a tool runs.
fn tell_call(tool_use: &ToolUse) -> (event: AgentEvent)
    ensures
        event@ == call_told(tool_use@),
{
    AgentEvent::ToolCall {
        name: tool_use.name.clone(),
        input: format_document(&tool_use.input),
    }
}

/// The parts of a message of the model.
fn content_of_reply(text: String, tool_uses: &Vec<ToolUse>) -> (content: Vec<ContentBlock>)
    ensures
        block_views(content@) == reply_content(text@, tool_use_views(tool_uses@)),
{
    let ghost all = tool_use_views(tool_uses@);
    let ghost said = text@;
    let mut content: Vec<ContentBlock> = Vec::new();
    if !text.as_str().is_empty() {
        content.push(ContentBlock::Text(text));
    }
    assert(all.take(0) =~= Seq::empty());
    assert(block_views(content@) =~= reply_content(said, all.take(0)));
    let mut i: usize = 0;
    while i < tool_uses.len()
        invariant
            all == tool_use_views(tool_uses@),
            i <= tool_uses@.len(),
            block_views(content@) == reply_content(said, all.take(i as int)),
        decreases tool_uses@.len() - i,
    {
        let ghost before = content@;
        let tool_use = tool_uses[i].clone();
        let ghost added = BlockView::ToolUse(tool_use@);
        content.push(ContentBlock::ToolUse(tool_use));
        assert(block_views(content@) =~= block_views(before).push(added));
        assert(block_views(content@) =~= reply_content(said, all.take(i + 1)));
        i += 1;
    }
    assert(all.take(i as int) =~= all);
    content
}

/// The message in which the model gets the results of tools.
fn message_of_results(results: Vec<ToolResult>) -> (message: Message)
    ensures
        message@ == results_message(tool_result_views(results@)),
{
    let ghost all = tool_result_views(results@);
    let ghost expected = results_message(all).content;
    let mut content: Vec<ContentBlock> = Vec::new();
    let mut i: usize = 0;
    while i < results.len()
        invariant
            all == tool_result_views(results@),
            expected == results_message(all).content,
            i <= results@.len(),
            block_views(content@) == expected.take(i as int),
        decreases results@.len() - i,
    {
        let ghost before = content@;
        let result = ToolResult {
            tool_use_id: results[i].tool_use_id.clone(),
            text: results[i].text.clone(),
            is_error: results[i].is_error,
        };
        let ghost added = BlockView::ToolResult(result@);
        content.push(ContentBlock::ToolResult(result));
        assert(block_views(content@) =~= block_views(before).push(added));
        assert(block_views(content@) =~= expected.take(i + 1));
        i += 1;
    }
    assert(expected.take(i as int) =~= expected);
    Message { role: Role::User, content }
}

impl Agent {
    /// An agent of a session. `restored` holds the messages of the session where
    /// it is continued and could be read.
    pub fn new(
        model_id: String,
        region: Option<String>,
        configured_region: Option<String>,
        system_prompt: Option<String>,
        session_id: String,
        restored: Option<Vec<Message>>,
    ) -> (agent: Agent)
        ensures
            agent@ == (AgentView {
                model_id: model_arn(model_id@, maybe_text(region), maybe_text(configured_region)),
                system_prompt: match system_prompt {
                    Some(prompt) => prompt@,
                    None => DEFAULT_SYSTEM_PROMPT@,
                },
                session_id: session_id@,
                messages: match restored {
                    Some(messages) => message_views(messages@),
                    None => Seq::empty(),
                },
                phase: PhaseView::Idle,
            }),
            agent@.wf(),
    {
        let messages = match restored {
            Some(messages) => messages,
            None => {
                let none: Vec<Message> = Vec::new();
                assert(message_views(none@) =~= Seq::empty());
                none
            },
        };
        Agent {
            model_id: resolve_model_id(model_id, region, configured_region),
            system_prompt: match system_prompt {
                Some(prompt) => prompt,
                None => DEFAULT_SYSTEM_PROMPT.to_string(),
            },
            session_id,
            messages,
            phase: Phase::Idle,
        }
    }

    /// Begins a turn with what the user said.
    pub fn send(&mut self, user_input: &str)
        requires
            old(self)@.phase is Idle,
        ensures
            final(self)@ == old(self)@.sent(user_input@),
            final(self)@.wf(),
    {
        let ghost before = self.messages@;
        let mut content: Vec<ContentBlock> = Vec::new();
        content.push(ContentBlock::Text(user_input.to_string()));
        let message = Message { role: Role::User, content };
        let ghost added = message@;
        assert(added.content =~= seq![BlockView::Text(user_input@)]);
        self.messages.push(message);
        assert(message_views(self.messages@) =~= message_views(before).push(added));
        self.phase = Phase::Calling;
    }

    /// The tool that is to be run next, while tools run.
    pub fn current_tool(&self) -> (tool_use: Option<&ToolUse>)
        requires
            self@.wf(),
        ensures
            match self@.phase {
                PhaseView::Running { tool_uses, results } => {
                    tool_use matches Some(tool_use) && tool_use@ == tool_uses[results.len() as int]
                },
                _ => tool_use is None,
            },
    {
        match &self.phase {
            Phase::Running { tool_uses, results } => Some(&tool_uses[results.len()]),
            _ => None,
        }
    }

    /// Goes on with what came of the last step, and gives what is to be told.
    pub fn step(&mut self, outcome: Outcome) -> (told: Vec<AgentEvent>)
        requires
            old(self)@.wf(),
            old(self)@.fits(outcome@),
        ensures
            final(self)@ == old(self)@.stepped(outcome@),
            final(self)@.wf(),
            event_views(told@) == old(self)@.told(outcome@),
    {
        let ghost start = self@;
        let ghost messages = self.messages@;
        let mut told: Vec<AgentEvent> = Vec::new();
        let mut phase = Phase::Idle;
        core::mem::swap(&mut phase, &mut self.phase);
        match outcome {
            Outcome::Replied { text, tool_uses } => {
                let ghost uses = tool_use_views(tool_uses@);
                let content = content_of_reply(text, &tool_uses);
                self.phase = Phase::Saving;
                if content.len() > 0 {
                    let message = Message { role: Role::Assistant, content };
                    let ghost added = message@;
                    self.messages.push(message);
                    assert(message_views(self.messages@) =~= message_views(messages).push(added));
                    if tool_uses.len() > 0 {
                        told.push(tell_call(&tool_uses[0]));
                        let results: Vec<ToolResult> = Vec::new();
                        assert(tool_result_views(results@) =~= Seq::empty());
                        self.phase = Phase::Running { tool_uses, results };
                    }
                }
                assert(event_views(told@) =~= start.told(outcome@));
            },
            Outcome::CallFailed(error) => {
                let _ = self.messages.pop();
                assert(messages.len() > 0 ==> message_views(self.messages@) =~= message_views(
                    messages,
                ).drop_last());
                self.phase = Phase::Saving;
                told.push(AgentEvent::Error(error));
                assert(event_views(told@) =~= start.told(outcome@));
            },
            Outcome::ToolDone(result) => {
                if let Phase::Running { tool_uses, mut results } = phase {
                    let ghost done = results@;
                    let ghost added = result@;
                    let i: usize = results.len();
                    told.push(
                        AgentEvent::ToolResult {
                            name: tool_uses[i].name.clone(),
                            output: result.text.clone(),
                        },
                    );
                    results.push(result);
                    assert(tool_result_views(results@) =~= tool_result_views(done).push(added));
                    if results.len() < tool_uses.len() {
                        told.push(tell_call(&tool_uses[results.len()]));
                        self.phase = Phase::Running { tool_uses, results };
                    } else {
                        let message = message_of_results(results);
                        let ghost sent = message@;
                        self.messages.push(message);
                        assert(message_views(self.messages@) =~= message_views(messages).push(
                            sent,
                        ));
                        self.phase = Phase::Calling;
                    }
                    assert(event_views(told@) =~= start.told(outcome@));
                }
            },
            Outcome::Saved => {
                told.push(AgentEvent::TurnEnd);
                assert(event_views(told@) =~= start.told(outcome@));
            },
        }
        told
    }
}

/// Why the model gave no reply.
pub enum CallError {
    Request(String),
    Stream(String),
}

pub open spec fn call_error_text(error: CallError) -> Seq<char> {
    match error {
        CallError::Request(cause) => "Bedrock API call failed: "@ + cause@,
        CallError::Stream(cause) => "stream error: "@ + cause@,
    }
}

/// What is said of a call that failed.
pub fn call_error(error: &CallError) -> (text: String)
    ensures
        text@ == call_error_text(*error),
{
    match error {
        CallError::Request(cause) => {
            let mut text = "Bedrock API call failed: ".to_string();
            text.append(cause.as_str());
            text
        },
        CallError::Stream(cause) => {
            let mut text = "stream error: ".to_string();
            text.append(cause.as_str());
            text
        },
    }
}

/// The texts that a stream brings, one after the other.
pub open spec fn streamed_text(events: Seq<StreamEventView>) -> Seq<char>
    decreases events.len(),
{
    if events.len() == 0 {
        seq![]
    } else {
        match events.last() {
            StreamEventView::Text(text) => streamed_text(events.drop_last()) + text,
            _ => streamed_text(events.drop_last()),
        }
    }
}

/// The text of a reply is what the stream brought, whatever else it brought in
/// between.
pub proof fn law_reply_text_is_what_was_streamed(events: Seq<StreamEventView>)
    ensures
        ReplyView::empty().after_all(events).text == streamed_text(events),
    decreases events.len(),
{
    if events.len() > 0 {
        law_reply_text_is_what_was_streamed(events.drop_last());
    }
}

/// The events by which one tool use comes: its start, its input in pieces, and
/// the end of its block.
pub open spec fn tool_block(
    tool_use_id: Seq<char>,
    name: Seq<char>,
    pieces: Seq<Seq<char>>,
) -> Seq<StreamEventView> {
    seq![StreamEventView::ToolStart { tool_use_id, name }] + pieces.map_values(
        |p: Seq<char>| StreamEventView::ToolInput(p),
    ) + seq![StreamEventView::BlockStop]
}

/// The pieces, one after the other.
pub open spec fn joined(pieces: Seq<Seq<char>>) -> Seq<char>
    decreases pieces.len(),
{
    if pieces.len() == 0 {
        seq![]
    } else {
        joined(pieces.drop_last()) + pieces.last()
    }
}

/// A tool use comes out whole, however its input is cut into pieces, and leaves
/// nothing behind for the next.
pub proof fn law_tool_use_comes_out_whole(
    reply: ReplyView,
    tool_use_id: Seq<char>,
    name: Seq<char>,
    pieces: Seq<Seq<char>>,
)
    requires
        name.len() > 0,
    ensures
        reply.after_all(tool_block(tool_use_id, name, pieces)) == (ReplyView {
            tool_uses: reply.tool_uses.push(
                ToolUseView { tool_use_id, name, input: tool_input_of(joined(pieces)) },
            ),
            tool_name: Seq::empty(),
            tool_id: Seq::empty(),
            tool_input: Seq::empty(),
            ..reply
        }),
{
    let begun = seq![StreamEventView::ToolStart { tool_use_id, name }] + pieces.map_values(
        |p: Seq<char>| StreamEventView::ToolInput(p),
    );
    lemma_pieces(reply, tool_use_id, name, pieces);
    assert(tool_block(tool_use_id, name, pieces).drop_last() =~= begun);
}

proof fn lemma_pieces(
    reply: ReplyView,
    tool_use_id: Seq<char>,
    name: Seq<char>,
    pieces: Seq<Seq<char>>,
)
    ensures
        reply.after_all(
            seq![StreamEventView::ToolStart { tool_use_id, name }] + pieces.map_values(
                |p: Seq<char>| StreamEventView::ToolInput(p),
            ),
        ) == (ReplyView {
            tool_name: name,
            tool_id: tool_use_id,
            tool_input: joined(pieces),
            ..reply
        }),
    decreases pieces.len(),
{
    let start = StreamEventView::ToolStart { tool_use_id, name };
    let inputs = pieces.map_values(|p: Seq<char>| StreamEventView::ToolInput(p));
    let events = seq![start] + inputs;
    if pieces.len() == 0 {
        assert(events.drop_last() =~= Seq::empty());
        assert(reply.after_all(Seq::empty()) == reply);
        assert(events.last() == start);
    } else {
        lemma_pieces(reply, tool_use_id, name, pieces.drop_last());
        assert(events.drop_last() =~= seq![start] + pieces.drop_last().map_values(
            |p: Seq<char>| StreamEventView::ToolInput(p),
        ));
        assert(events.last() == StreamEventView::ToolInput(pieces.last()));
    }
}

/// The tools that a message asks for, by their IDs.
pub open spec fn asked_ids(content: Seq<BlockView>) -> Seq<Seq<char>>
    decreases content.len(),
{
    if content.len() == 0 {
        seq![]
    } else {
        match content.last() {
            BlockView::ToolUse(tool_use) => asked_ids(content.drop_last()).push(
                tool_use.tool_use_id,
            ),
            _ => asked_ids(content.drop_last()),
        }
    }
}

/// The tools of which a message gives results, by their IDs.
pub open spec fn answered_ids(content: Seq<BlockView>) -> Seq<Seq<char>>
    decreases content.len(),
{
    if content.len() == 0 {
        seq![]
    } else {
        match content.last() {
            BlockView::ToolResult(result) => answered_ids(content.drop_last()).push(
                result.tool_use_id,
            ),
            _ => answered_ids(content.drop_last()),
        }
    }
}

/// After message `i` come the results of the tools that it asks for, one for
/// each and in the same order.
pub open spec fn is_answered(messages: Seq<MessageView>, i: int) -> bool {
    asked_ids(messages[i].content).len() > 0 ==> i + 1 < messages.len() && messages[i + 1].role
        == Role::User && answered_ids(messages[i + 1].content) == asked_ids(messages[i].content)
}

pub open spec fn all_answered(messages: Seq<MessageView>) -> bool {
    forall|i: int| 0 <= i < messages.len() ==> #[trigger] is_answered(messages, i)
}

impl AgentView {
    /// Every tool that the model asked for has its result in the next message,
    /// except those that are being run.
    pub open spec fn answers_tools(self) -> bool {
        match self.phase {
            PhaseView::Running { tool_uses, results } => {
                &&& self.messages.len() > 0
                &&& all_answered(self.messages.drop_last())
                &&& asked_ids(self.messages.last().content) == tool_uses.map_values(
                    |t: ToolUseView| t.tool_use_id,
                )
                &&& results.len() <= tool_uses.len()
                &&& forall|i: int|
                    0 <= i < results.len() ==> (#[trigger] results[i]).tool_use_id
                        == tool_uses[i].tool_use_id
            },
            _ => all_answered(self.messages),
        }
    }
}

/// What the user says leaves no tool without its result.
pub proof fn law_send_keeps_tools_answered(agent: AgentView, user_input: Seq<char>)
    requires
        agent.phase is Idle,
        agent.answers_tools(),
    ensures
        agent.sent(user_input).answers_tools(),
{
    let after = agent.sent(user_input);
    let added = after.messages.last();
    assert(added.content.drop_last() =~= Seq::empty());
    assert(asked_ids(added.content) =~= Seq::empty()) by {
        assert(added.content.last() is Text);
        assert(asked_ids(added.content.drop_last()) =~= Seq::empty());
    }
    assert forall|i: int| 0 <= i < after.messages.len() implies #[trigger] is_answered(
        after.messages,
        i,
    ) by {
        if i < agent.messages.len() {
            assert(is_answered(agent.messages, i));
        }
    }
}

/// At every step of a turn each tool that the model asked for gets its result,
/// in the next message and in the same order. A call that fails after tools have
/// run takes their results back and is left out.
pub proof fn law_step_keeps_tools_answered(agent: AgentView, outcome: OutcomeView)
    requires
        agent.wf(),
        agent.answers_tools(),
        agent.fits(outcome),
        outcome is CallFailed && agent.messages.len() > 0 ==> answered_ids(
            agent.messages.last().content,
        ).len() == 0,
    ensures
        agent.stepped(outcome).answers_tools(),
{
    let after = agent.stepped(outcome);
    match (agent.phase, outcome) {
        (PhaseView::Calling, OutcomeView::Replied { text, tool_uses }) => {
            lemma_asked_in_reply(text, tool_uses);
            if reply_content(text, tool_uses).len() > 0 {
                assert(after.messages.drop_last() =~= agent.messages);
                if tool_uses.len() == 0 {
                    assert forall|i: int| 0 <= i < after.messages.len() implies
                        #[trigger] is_answered(after.messages, i) by {
                        if i < agent.messages.len() {
                            assert(is_answered(agent.messages, i));
                        }
                    }
                }
            }
        },
        (PhaseView::Calling, OutcomeView::CallFailed(_)) => {
            assert forall|i: int| 0 <= i < after.messages.len() implies #[trigger] is_answered(
                after.messages,
                i,
            ) by {
                assert(is_answered(agent.messages, i));
            }
        },
        (PhaseView::Running { tool_uses, results }, OutcomeView::ToolDone(result)) => {
            let results = results.push(result);
            if results.len() == tool_uses.len() {
                let n = agent.messages.len() as int;
                lemma_answered_by_results(results);
                assert(results.map_values(|r: ToolResultView| r.tool_use_id)
                    =~= tool_uses.map_values(|t: ToolUseView| t.tool_use_id));
                lemma_nothing_asked_by_results(results);
                assert forall|i: int| 0 <= i < after.messages.len() implies
                    #[trigger] is_answered(after.messages, i) by {
                    if i < n - 1 {
                        assert(is_answered(agent.messages.drop_last(), i));
                    }
                }
            }
        },
        _ => {},
    }
}

proof fn lemma_asked_in_reply(text: Seq<char>, tool_uses: Seq<ToolUseView>)
    ensures
        asked_ids(reply_content(text, tool_uses)) == tool_uses.map_values(
            |t: ToolUseView| t.tool_use_id,
        ),
    decreases tool_uses.len(),
{
    let content = reply_content(text, tool_uses);
    let ids = tool_uses.map_values(|t: ToolUseView| t.tool_use_id);
    if tool_uses.len() == 0 {
        if text.len() > 0 {
            assert(content.drop_last() =~= Seq::empty());
            assert(content.last() is Text);
            assert(asked_ids(content.drop_last()) =~= Seq::empty());
        }
        assert(asked_ids(content) =~= ids);
    } else {
        lemma_asked_in_reply(text, tool_uses.drop_last());
        assert(content.drop_last() =~= reply_content(text, tool_uses.drop_last()));
        assert(content.last() == BlockView::ToolUse(tool_uses.last()));
        assert(asked_ids(content) =~= ids);
    }
}

proof fn lemma_answered_by_results(results: Seq<ToolResultView>)
    ensures
        answered_ids(results_message(results).content) == results.map_values(
            |r: ToolResultView| r.tool_use_id,
        ),
    decreases results.len(),
{
    let content = results_message(results).content;
    let ids = results.map_values(|r: ToolResultView| r.tool_use_id);
    if results.len() > 0 {
        lemma_answered_by_results(results.drop_last());
        assert(content.drop_last() =~= results_message(results.drop_last()).content);
    }
    assert(answered_ids(content) =~= ids);
}

proof fn lemma_nothing_asked_by_results(results: Seq<ToolResultView>)
    ensures
        asked_ids(results_message(results).content).len() == 0,
    decreases results.len(),
{
    let content = results_message(results).content;
    if results.len() > 0 {
        lemma_nothing_asked_by_results(results.drop_last());
        assert(content.drop_last() =~= results_message(results.drop_last()).content);
    }
}

/// Where the first call of a turn fails, the conversation is as it was before
/// the turn, and the error is told.
pub proof fn law_failed_call_leaves_no_trace(
    agent: AgentView,
    user_input: Seq<char>,
    error: Seq<char>,
)
    requires
        agent.phase is Idle,
    ensures
        agent.sent(user_input).stepped(OutcomeView::CallFailed(error)).messages == agent.messages,
        agent.sent(user_input).told(OutcomeView::CallFailed(error)) == seq![
            AgentEventView::Error(error),
        ],
{
    assert(agent.sent(user_input).messages.drop_last() =~= agent.messages);
}

impl AgentView {
    pub open spec fn stepped_all(self, outcomes: Seq<OutcomeView>) -> AgentView
        decreases outcomes.len(),
    {
        if outcomes.len() == 0 {
            self
        } else {
            self.stepped_all(outcomes.drop_last()).stepped(outcomes.last())
        }
    }

    pub open spec fn told_all(self, outcomes: Seq<OutcomeView>) -> Seq<AgentEventView>
        decreases outcomes.len(),
    {
        if outcomes.len() == 0 {
            seq![]
        } else {
            self.told_all(outcomes.drop_last()) + self.stepped_all(outcomes.drop_last()).told(
                outcomes.last(),
            )
        }
    }
}

/// A reply, and the results of the tools that it asks for.
pub open spec fn round(
    text: Seq<char>,
    tool_uses: Seq<ToolUseView>,
    results: Seq<ToolResultView>,
) -> Seq<OutcomeView> {
    seq![OutcomeView::Replied { text, tool_uses }] + results.map_values(
        |r: ToolResultView| OutcomeView::ToolDone(r),
    )
}

/// What is told of the tools: before each that it is called, after each what it
/// gave.
pub open spec fn tools_told(
    tool_uses: Seq<ToolUseView>,
    results: Seq<ToolResultView>,
) -> Seq<AgentEventView> {
    Seq::new(
        2 * tool_uses.len(),
        |i: int|
            if i % 2 == 0 {
                call_told(tool_uses[i / 2])
            } else {
                result_told(tool_uses[i / 2], results[i / 2])
            },
    )
}

/// A round of tools adds the reply and the message with all results, asks the
/// model again, and tells of every call and result in order.
pub proof fn law_round_of_tools(
    agent: AgentView,
    text: Seq<char>,
    tool_uses: Seq<ToolUseView>,
    results: Seq<ToolResultView>,
)
    requires
        agent.phase is Calling,
        tool_uses.len() > 0,
        results.len() == tool_uses.len(),
    ensures
        agent.stepped_all(round(text, tool_uses, results)) == (AgentView {
            messages: agent.messages.push(
                MessageView { role: Role::Assistant, content: reply_content(text, tool_uses) },
            ).push(results_message(results)),
            ..agent
        }),
        agent.told_all(round(text, tool_uses, results)) == tools_told(tool_uses, results),
{
    let n = tool_uses.len() as int;
    let all = round(text, tool_uses, results);
    lemma_round_so_far(agent, text, tool_uses, results, n - 1);
    assert(results.take(n) =~= results);
    assert(all.drop_last() =~= round(text, tool_uses, results.take(n - 1)));
    assert(all.last() == OutcomeView::ToolDone(results[n - 1]));
    assert(results.take(n - 1).push(results[n - 1]) =~= results);
    assert(agent.told_all(all) =~= tools_told(tool_uses, results));
}

proof fn lemma_round_so_far(
    agent: AgentView,
    text: Seq<char>,
    tool_uses: Seq<ToolUseView>,
    results: Seq<ToolResultView>,
    k: int,
)
    requires
        agent.phase is Calling,
        0 <= k < tool_uses.len(),
        results.len() == tool_uses.len(),
    ensures
        agent.stepped_all(round(text, tool_uses, results.take(k))) == (AgentView {
            messages: agent.messages.push(
                MessageView { role: Role::Assistant, content: reply_content(text, tool_uses) },
            ),
            phase: PhaseView::Running { tool_uses, results: results.take(k) },
            ..agent
        }),
        agent.told_all(round(text, tool_uses, results.take(k))) == tools_told(
            tool_uses,
            results,
        ).take(2 * k + 1),
    decreases k,
{
    let outcomes = round(text, tool_uses, results.take(k));
    if k == 0 {
        let before = outcomes.drop_last();
        assert(before =~= Seq::empty());
        assert(agent.stepped_all(before) == agent);
        assert(agent.told_all(before) =~= Seq::empty());
        assert(outcomes.last() == OutcomeView::Replied { text, tool_uses });
        assert(reply_content(text, tool_uses).len() > 0);
        assert(results.take(0) =~= Seq::empty());
        assert(agent.told_all(outcomes) =~= tools_told(tool_uses, results).take(1));
    } else {
        lemma_round_so_far(agent, text, tool_uses, results, k - 1);
        let done = results.take(k);
        assert(done.drop_last() =~= results.take(k - 1));
        assert(outcomes.drop_last() =~= round(text, tool_uses, results.take(k - 1)));
        assert(outcomes.last() == OutcomeView::ToolDone(results[k - 1]));
        assert(results.take(k - 1).push(results[k - 1]) =~= results.take(k));
        assert(agent.told_all(outcomes) =~= tools_told(tool_uses, results).take(2 * k + 1));
    }
}

/// The end of a turn is told once the session is saved, and then the agent waits
/// for the user.
pub proof fn law_turn_ends_once_saved(agent: AgentView, outcome: OutcomeView)
    requires
        agent.told(outcome).contains(AgentEventView::TurnEnd),
    ensures
        agent.phase is Saving,
        outcome is Saved,
        agent.stepped(outcome).phase is Idle,
        agent.stepped(outcome).messages == agent.messages,
{
    let i = choose|i: int|
        0 <= i < agent.told(outcome).len() && agent.told(outcome)[i] == AgentEventView::TurnEnd;
    assert(agent.told(outcome)[i] is TurnEnd);
}

/// A full ARN is kept, and so expanding a model ID twice is expanding it once.
pub proof fn law_arn_is_kept(
    model_id: Seq<char>,
    region: Option<Seq<char>>,
    configured_region: Option<Seq<char>>,
    other: Option<Seq<char>>,
)
    ensures
        "arn:"@.is_prefix_of(model_arn(model_id, region, configured_region)),
        model_arn(model_arn(model_id, region, configured_region), other, other) == model_arn(
            model_id,
            region,
            configured_region,
        ),
{
    reveal_strlit("arn:");
    reveal_strlit("arn:aws:bedrock:");
    let arn = model_arn(model_id, region, configured_region);
    if !"arn:"@.is_prefix_of(model_id) {
        assert("arn:"@ =~= arn.take(4));
    }
}

impl AgentView {
    /// Each outcome is of what the agent was about to do when it came.
    pub open spec fn fits_all(self, outcomes: Seq<OutcomeView>) -> bool
        decreases outcomes.len(),
    {
        outcomes.len() == 0 || (self.fits_all(outcomes.drop_last()) && self.stepped_all(
            outcomes.drop_last(),
        ).fits(outcomes.last()))
    }
}

/// A call failed.
pub open spec fn has_failed_call(outcomes: Seq<OutcomeView>) -> bool {
    exists|i: int| 0 <= i < outcomes.len() && #[trigger] outcomes[i] is CallFailed
}

/// Neither an error nor the end of a turn is told.
pub open spec fn is_under_way(told: Seq<AgentEventView>) -> bool {
    forall|i: int|
        0 <= i < told.len() ==> !(#[trigger] told[i] is TurnEnd) && !(told[i] is Error)
}

/// In a turn that runs to its end, the end is told once and last. An error is told
/// exactly where a call failed, and then once and just before the end.
pub proof fn law_turn_is_told_to_its_end(agent: AgentView, outcomes: Seq<OutcomeView>)
    requires
        !(agent.phase is Idle),
        agent.fits_all(outcomes),
        agent.stepped_all(outcomes).phase is Idle,
    ensures
        ({
            let told = agent.told_all(outcomes);
            let n = told.len() as int;
            &&& n > 0
            &&& told[n - 1] is TurnEnd
            &&& forall|i: int| 0 <= i < n - 1 ==> !(#[trigger] told[i] is TurnEnd)
            &&& has_failed_call(outcomes) <==> n > 1 && told[n - 2] is Error
            &&& forall|i: int| 0 <= i < n && #[trigger] told[i] is Error ==> i == n - 2
        }),
{
    lemma_told_so_far(agent, outcomes);
    let told = agent.told_all(outcomes);
    let n = told.len() as int;
    assert forall|i: int| 0 <= i < n - 1 implies !(#[trigger] told[i] is TurnEnd) && (
    told[i] is Error ==> i == n - 2 && has_failed_call(outcomes)) by {
        assert(told[i] == told.drop_last()[i]);
        if has_failed_call(outcomes) && i < n - 2 {
            assert(told[i] == told.drop_last().drop_last()[i]);
        }
    }
}

proof fn lemma_told_so_far(agent: AgentView, outcomes: Seq<OutcomeView>)
    requires
        !(agent.phase is Idle),
        agent.fits_all(outcomes),
    ensures
        ({
            let told = agent.told_all(outcomes);
            let failed = has_failed_call(outcomes);
            match agent.stepped_all(outcomes).phase {
                PhaseView::Saving => if failed {
                    told.len() > 0 && told.last() is Error && is_under_way(told.drop_last())
                } else {
                    is_under_way(told)
                },
                PhaseView::Idle => {
                    &&& told.len() > 0
                    &&& told.last() is TurnEnd
                    &&& if failed {
                        &&& told.len() > 1
                        &&& told[told.len() - 2] is Error
                        &&& is_under_way(told.drop_last().drop_last())
                    } else {
                        is_under_way(told.drop_last())
                    }
                },
                _ => !failed && is_under_way(told),
            }
        }),
    decreases outcomes.len(),
{
    if outcomes.len() > 0 {
        let some = outcomes.drop_last();
        let last = outcomes.last();
        lemma_told_so_far(agent, some);
        let before = agent.stepped_all(some);
        let told = agent.told_all(some);
        let all = agent.told_all(outcomes);
        assert(all =~= told + before.told(last));
        assert(has_failed_call(outcomes) <==> has_failed_call(some) || last is CallFailed) by {
            if has_failed_call(some) {
                let i = choose|i: int| 0 <= i < some.len() && #[trigger] some[i] is CallFailed;
                assert(outcomes[i] is CallFailed);
            }
            assert(outcomes[outcomes.len() - 1] == last);
            if has_failed_call(outcomes) {
                let i = choose|i: int|
                    0 <= i < outcomes.len() && #[trigger] outcomes[i] is CallFailed;
                if i < some.len() {
                    assert(some[i] is CallFailed);
                }
            }
        }
        match last {
            OutcomeView::CallFailed(_) => {
                assert(all.drop_last() =~= told);
            },
            OutcomeView::Saved => {
                assert(all.drop_last() =~= told);
                if has_failed_call(some) {
                    assert(all[all.len() - 2] == told.last());
                }
            },
            _ => {
                assert forall|i: int| 0 <= i < all.len() implies !(#[trigger] all[i] is TurnEnd)
                    && !(all[i] is Error) by {
                    if i < told.len() {
                        assert(all[i] == told[i]);
                    } else {
                        assert(all[i] == before.told(last)[i - told.len()]);
                    }
                }
            },
        }
    }
}

/// The message holds, one after the other, what the model said, if it said anything, and
/// each tool that it asked for, as it asked for it.
pub open spec fn is_reply(message: MessageView, text: Seq<char>, tool_uses: Seq<ToolUseView>) -> bool {
    let said: int = if text.len() > 0 {
        1
    } else {
        0
    };
    &&& message.role == Role::Assistant
    &&& message.content.len() == said + tool_uses.len()
    &&& text.len() > 0 ==> message.content[0] == BlockView::Text(text)
    &&& forall|i: int|
        0 <= i < tool_uses.len() ==> message.content[said + i] == BlockView::ToolUse(
            #[trigger] tool_uses[i],
        )
}

/// The message holds one result after the other, each as the tool gave it: with its ID,
/// its text and whether it is an error.
pub open spec fn holds_results(message: MessageView, results: Seq<ToolResultView>) -> bool {
    &&& message.role == Role::User
    &&& message.content.len() == results.len()
    &&& forall|i: int|
        0 <= i < results.len() ==> match message.content[i] {
            BlockView::ToolResult(result) => {
                &&& result.tool_use_id == (#[trigger] results[i]).tool_use_id
                &&& result.text == results[i].text
                &&& result.is_error == results[i].is_error
            },
            _ => false,
        }
}

/// Two agents are the same but for their messages and for what they are about to do.
pub open spec fn same_agent(a: AgentView, b: AgentView) -> bool {
    a.model_id == b.model_id && a.system_prompt == b.system_prompt && a.session_id == b.session_id
}

/// What the user says becomes the last message, alone in it, and the model is asked.
pub proof fn law_user_input_is_said(agent: AgentView, user_input: Seq<char>)
    ensures
        ({
            let after = agent.sent(user_input);
            &&& same_agent(after, agent)
            &&& after.messages.len() == agent.messages.len() + 1
            &&& after.messages.take(agent.messages.len() as int) == agent.messages
            &&& after.messages.last().role == Role::User
            &&& after.messages.last().content.len() == 1
            &&& after.messages.last().content[0] == BlockView::Text(user_input)
            &&& after.phase is Calling
        }),
{
    assert(agent.sent(user_input).messages.take(agent.messages.len() as int) =~= agent.messages);
}

/// A reply becomes the last message, whole, unless it says nothing at all. Where it asks
/// for tools, all of them are to be run; where it asks for none, the turn is over.
pub proof fn law_reply_becomes_a_message(
    agent: AgentView,
    text: Seq<char>,
    tool_uses: Seq<ToolUseView>,
)
    requires
        agent.phase is Calling,
    ensures
        ({
            let after = agent.stepped(OutcomeView::Replied { text, tool_uses });
            let told = agent.told(OutcomeView::Replied { text, tool_uses });
            &&& same_agent(after, agent)
            &&& text.len() == 0 && tool_uses.len() == 0 ==> after.messages == agent.messages
            &&& text.len() > 0 || tool_uses.len() > 0 ==> {
                &&& after.messages.len() == agent.messages.len() + 1
                &&& after.messages.take(agent.messages.len() as int) == agent.messages
                &&& is_reply(after.messages.last(), text, tool_uses)
            }
            &&& tool_uses.len() == 0 ==> after.phase is Saving && told.len() == 0
            &&& tool_uses.len() > 0 ==> {
                &&& after.phase == (PhaseView::Running { tool_uses, results: Seq::empty() })
                &&& told == seq![
                    AgentEventView::ToolCall {
                        name: tool_uses[0].name,
                        input: json_write(json_of(tool_uses[0].input)),
                    },
                ]
            }
        }),
{
    let after = agent.stepped(OutcomeView::Replied { text, tool_uses });
    if text.len() > 0 || tool_uses.len() > 0 {
        assert(reply_content(text, tool_uses).len() > 0);
        assert(after.messages.take(agent.messages.len() as int) =~= agent.messages);
        if text.len() > 0 {
            assert(reply_content(text, tool_uses)[0] == BlockView::Text(text));
        }
        let said: int = if text.len() > 0 {
            1
        } else {
            0
        };
        assert forall|i: int| 0 <= i < tool_uses.len() implies reply_content(text, tool_uses)[said
            + i] == BlockView::ToolUse(#[trigger] tool_uses[i]) by {}
    } else {
        assert(reply_content(text, tool_uses).len() == 0);
    }
}

/// The result of a tool is kept as it is, behind those of the tools before it. Once all
/// tools have run, the model gets all results in one message and is asked again.
pub proof fn law_tool_result_is_handed_on(
    agent: AgentView,
    tool_uses: Seq<ToolUseView>,
    results: Seq<ToolResultView>,
    result: ToolResultView,
)
    requires
        agent.phase == (PhaseView::Running { tool_uses, results }),
        results.len() < tool_uses.len(),
    ensures
        ({
            let n = results.len() as int;
            let after = agent.stepped(OutcomeView::ToolDone(result));
            let told = agent.told(OutcomeView::ToolDone(result));
            &&& same_agent(after, agent)
            &&& told.len() > 0
            &&& told[0] == (AgentEventView::ToolResult {
                name: tool_uses[n].name,
                output: result.text,
            })
            &&& n + 1 < tool_uses.len() ==> {
                &&& after.messages == agent.messages
                &&& after.phase matches PhaseView::Running { tool_uses: uses, results: done }
                    && uses == tool_uses && done.len() == n + 1 && done.take(n) == results
                    && done[n] == result
                &&& told.len() == 2
                &&& told[1] == (AgentEventView::ToolCall {
                    name: tool_uses[n + 1].name,
                    input: json_write(json_of(tool_uses[n + 1].input)),
                })
            }
            &&& n + 1 == tool_uses.len() ==> {
                &&& after.phase is Calling
                &&& after.messages.len() == agent.messages.len() + 1
                &&& after.messages.take(agent.messages.len() as int) == agent.messages
                &&& after.messages.last().content.len() == n + 1
                &&& holds_results(after.messages.last(), results.push(result))
                &&& told.len() == 1
            }
        }),
{
    let after = agent.stepped(OutcomeView::ToolDone(result));
    let n = results.len() as int;
    if n + 1 < tool_uses.len() {
        assert(results.push(result).take(n) =~= results);
    } else {
        assert(after.messages.take(agent.messages.len() as int) =~= agent.messages);
    }
}

/// After a round of tools the conversation has two messages more: the reply with every
/// tool that it asks for, and one with the result of each, as that tool gave it.
pub proof fn law_every_tool_gets_its_own_result(
    agent: AgentView,
    text: Seq<char>,
    tool_uses: Seq<ToolUseView>,
    results: Seq<ToolResultView>,
)
    requires
        agent.phase is Calling,
        tool_uses.len() > 0,
        results.len() == tool_uses.len(),
    ensures
        ({
            let n = agent.messages.len() as int;
            let after = agent.stepped_all(round(text, tool_uses, results));
            &&& same_agent(after, agent)
            &&& after.phase is Calling
            &&& after.messages.len() == n + 2
            &&& after.messages.take(n) == agent.messages
            &&& is_reply(after.messages[n], text, tool_uses)
            &&& holds_results(after.messages[n + 1], results)
            &&& forall|i: int|
                0 <= i < results.len() ==> after.messages[n + 1].content[i]
                    == BlockView::ToolResult(#[trigger] results[i])
        }),
{
    law_round_of_tools(agent, text, tool_uses, results);
    law_reply_becomes_a_message(agent, text, tool_uses);
    let n = agent.messages.len() as int;
    let after = agent.stepped_all(round(text, tool_uses, results));
    assert(after.messages.take(n) =~= agent.messages);
}

/// What is told of a round of tools: before each tool its name and its input as JSON,
/// after it its name and what it gave.
pub proof fn law_every_tool_is_told_of(
    agent: AgentView,
    text: Seq<char>,
    tool_uses: Seq<ToolUseView>,
    results: Seq<ToolResultView>,
    i: int,
)
    requires
        agent.phase is Calling,
        results.len() == tool_uses.len(),
        0 <= i < tool_uses.len(),
    ensures
        ({
            let told = agent.told_all(round(text, tool_uses, results));
            &&& told.len() == 2 * tool_uses.len()
            &&& told[2 * i] == (AgentEventView::ToolCall {
                name: tool_uses[i].name,
                input: json_write(json_of(tool_uses[i].input)),
            })
            &&& told[2 * i + 1] == (AgentEventView::ToolResult {
                name: tool_uses[i].name,
                output: results[i].text,
            })
        }),
{
    law_round_of_tools(agent, text, tool_uses, results);
}

/// A call that fails takes the last message back, says why and ends the turn.
pub proof fn law_failed_call_takes_the_last_message_back(agent: AgentView, error: Seq<char>)
    requires
        agent.phase is Calling,
    ensures
        ({
            let after = agent.stepped(OutcomeView::CallFailed(error));
            &&& same_agent(after, agent)
            &&& after.phase is Saving
            &&& agent.messages.len() > 0 ==> after.messages == agent.messages.take(
                agent.messages.len() - 1,
            )
            &&& agent.messages.len() == 0 ==> after.messages.len() == 0
            &&& agent.told(OutcomeView::CallFailed(error)) == seq![AgentEventView::Error(error)]
        }),
{
    if agent.messages.len() > 0 {
        assert(agent.messages.drop_last() =~= agent.messages.take(agent.messages.len() - 1));
    }
}

/// Once the session is saved the end of the turn is told and the agent waits for the
/// user; the conversation stays as it is.
pub proof fn law_saved_turn_is_over(agent: AgentView)
    requires
        agent.phase is Saving,
    ensures
        ({
            let after = agent.stepped(OutcomeView::Saved);
            &&& same_agent(after, agent)
            &&& after.phase is Idle
            &&& after.messages == agent.messages
            &&& agent.told(OutcomeView::Saved) == seq![AgentEventView::TurnEnd]
        }),
{
}

/// The text of a reply is the texts that come, one after the other, and each is told as
/// it comes; nothing else is told while the model replies.
pub proof fn law_text_is_added_and_told(reply: ReplyView, event: StreamEventView)
    ensures
        match event {
            StreamEventView::Text(text) => {
                &&& reply.after(event) == (ReplyView { text: reply.text + text, ..reply })
                &&& told_at_once(event) == Some(AgentEventView::Text(text))
            },
            _ => reply.after(event).text == reply.text && told_at_once(event) is None,
        },
{
}

/// A reply keeps the tool uses that have come, in order. Only the end of the block of a
/// tool adds one, and only the end of the message ends the reply.
pub proof fn law_tool_uses_are_only_added(reply: ReplyView, event: StreamEventView)
    ensures
        ({
            let after = reply.after(event);
            let n = reply.tool_uses.len() as int;
            &&& reply.tool_uses.is_prefix_of(after.tool_uses)
            &&& after.tool_uses.len() == if event is BlockStop && reply.tool_name.len() > 0 {
                n + 1
            } else {
                n
            }
            &&& after.ended <==> reply.ended || event is MessageStop
            &&& event is Other ==> after == reply
            &&& event is MessageStop ==> after == (ReplyView { ended: true, ..reply })
            &&& event is BlockStop && reply.tool_name.len() == 0 ==> after == reply
        }),
{
    let after = reply.after(event);
    assert(after.tool_uses.take(reply.tool_uses.len() as int) =~= reply.tool_uses);
}

/// The input of a tool is what the model sent for it, as a document; an empty object
/// where that is no JSON.
pub proof fn law_tool_input_is_what_was_sent(
    reply: ReplyView,
    tool_use_id: Seq<char>,
    name: Seq<char>,
    pieces: Seq<Seq<char>>,
)
    requires
        name.len() > 0,
    ensures
        ({
            let after = reply.after_all(tool_block(tool_use_id, name, pieces));
            let n = reply.tool_uses.len() as int;
            &&& after.text == reply.text
            &&& after.ended == reply.ended
            &&& after.tool_uses.len() == n + 1
            &&& after.tool_uses.take(n) == reply.tool_uses
            &&& after.tool_uses[n].tool_use_id == tool_use_id
            &&& after.tool_uses[n].name == name
            &&& after.tool_uses[n].input == match json_parse(joined(pieces)) {
                Ok(tree) => document_of(tree),
                Err(_) => DocumentTree::Object(Map::empty()),
            }
        }),
{
    law_tool_use_comes_out_whole(reply, tool_use_id, name, pieces);
    let after = reply.after_all(tool_block(tool_use_id, name, pieces));
    assert(after.tool_uses.take(reply.tool_uses.len() as int) =~= reply.tool_uses);
}

/// A model that is given by an ID is the foundation model of that name in the region
/// that was asked for, or else the configured one, or else `us-east-1`. One that is given
/// by an ARN is that one.
pub proof fn law_model_id_is_expanded(
    model_id: Seq<char>,
    asked: Seq<char>,
    configured: Seq<char>,
    other: Option<Seq<char>>,
)
    ensures
        model_arn("arn:"@ + model_id, other, other) == "arn:"@ + model_id,
        !"arn:"@.is_prefix_of(model_id) ==> {
            &&& model_arn(model_id, Some(asked), other) == "arn:aws:bedrock:"@ + asked
                + "::foundation-model/"@ + model_id
            &&& model_arn(model_id, None, Some(configured)) == "arn:aws:bedrock:"@ + configured
                + "::foundation-model/"@ + model_id
            &&& model_arn(model_id, None, None) == "arn:aws:bedrock:"@ + "us-east-1"@
                + "::foundation-model/"@ + model_id
        },
{
    reveal_strlit("arn:");
    assert(("arn:"@ + model_id).take(4) =~= "arn:"@);
    assert("arn:"@.is_prefix_of("arn:"@ + model_id));
}

/// A failed call is told with the step that failed and the cause.
pub proof fn law_failed_step_is_named(cause: String)
    ensures
        call_error_text(CallError::Request(cause)) == "Bedrock API call failed: "@ + cause@,
        call_error_text(CallError::Stream(cause)) == "stream error: "@ + cause@,
{
}

/// A tool use begins with nothing of its input, gets all that comes for it behind what it
/// has, and is complete at the end of its block. A block without a tool changes nothing, and
/// neither does an event of another kind; the last event says that the reply is complete.
pub proof fn law_tool_use_is_put_together(
    reply: ReplyView,
    tool_use_id: Seq<char>,
    name: Seq<char>,
    piece: Seq<char>,
)
    ensures
        reply.after(StreamEventView::ToolStart { tool_use_id, name }) == (ReplyView {
            text: reply.text,
            tool_uses: reply.tool_uses,
            tool_name: name,
            tool_id: tool_use_id,
            tool_input: Seq::empty(),
            ended: reply.ended,
        }),
        reply.after(StreamEventView::ToolInput(piece)) == (ReplyView {
            text: reply.text,
            tool_uses: reply.tool_uses,
            tool_name: reply.tool_name,
            tool_id: reply.tool_id,
            tool_input: reply.tool_input + piece,
            ended: reply.ended,
        }),
        reply.tool_name.len() > 0 ==> {
            let after = reply.after(StreamEventView::BlockStop);
            let n = reply.tool_uses.len() as int;
            &&& after.tool_uses.len() == n + 1
            &&& after.tool_uses.take(n) == reply.tool_uses
            &&& after.tool_uses[n].tool_use_id == reply.tool_id
            &&& after.tool_uses[n].name == reply.tool_name
            &&& after.tool_uses[n].input == tool_input_of(reply.tool_input)
            &&& after.tool_name.len() == 0
            &&& after.text == reply.text
            &&& after.ended == reply.ended
        },
        reply.tool_name.len() == 0 ==> reply.after(StreamEventView::BlockStop) == reply,
        reply.after(StreamEventView::Other) == reply,
        reply.after(StreamEventView::MessageStop) == (ReplyView { ended: true, ..reply }),
{
    let n = reply.tool_uses.len() as int;
    if reply.tool_name.len() > 0 {
        assert(reply.after(StreamEventView::BlockStop).tool_uses.take(n) =~= reply.tool_uses);
    }
}

}
