//! The command line: what was asked for, and what a run without a screen prints.
use vstd::prelude::*;
use vstd::slice::slice_subrange;

use crate::agent::{AgentEvent, AgentEventView};
use crate::config::{
    Config, ToolConfigView, WasmPermissions, WasmPermissionsView, WasmToolConfig,
};
use crate::history::{is_random_uuid, new_session_id};
use crate::text::{
    chars_of, copy_maybe, decimal, decimal_of, find_char, find_char_in,
    law_character_is_found_first, lemma_first_char, maybe_text, same, string_of,
};

verus! {

pub const DEFAULT_MODEL_ID: &'static str = "openai.gpt-oss-120b-1:0";

/// What was asked for on the command line.
pub struct Cli {
    pub model: Option<String>,
    pub region: Option<String>,
    pub system_prompt: Option<String>,
    pub prompt: Option<String>,
    pub prompt_file: Option<String>,
    pub continue_last: bool,
    pub restore: Option<String>,
    pub tools: Vec<String>,
}

/// What counts of the command line and the configuration.
pub struct ResolvedConfig {
    pub model: String,
    pub region: Option<String>,
    pub system_prompt: Option<String>,
}

/// The first of two texts that is there.
pub open spec fn first_given(first: Option<Seq<char>>, second: Option<Seq<char>>) -> Option<
    Seq<char>,
> {
    match first {
        Some(text) => Some(text),
        None => second,
    }
}

/// The first of two texts that is there.
fn either(first: &Option<String>, second: &Option<String>) -> (text: Option<String>)
    ensures
        maybe_text(text) == first_given(maybe_text(*first), maybe_text(*second)),
{
    match first {
        Some(text) => Some(text.clone()),
        None => copy_maybe(second),
    }
}

impl ResolvedConfig {
    /// The command line counts before the configuration.
    pub fn from_cli_and_config(cli: &Cli, config: &Config) -> (resolved: ResolvedConfig)
        ensures
            resolved.model@ == match first_given(maybe_text(cli.model), config@.model) {
                Some(model) => model,
                None => DEFAULT_MODEL_ID@,
            },
            maybe_text(resolved.region) == first_given(maybe_text(cli.region), config@.region),
            maybe_text(resolved.system_prompt) == first_given(
                maybe_text(cli.system_prompt),
                config@.system_prompt,
            ),
    {
        ResolvedConfig {
            model: match either(&cli.model, &config.model) {
                Some(model) => model,
                None => DEFAULT_MODEL_ID.to_string(),
            },
            region: either(&cli.region, &config.region),
            system_prompt: either(&cli.system_prompt, &config.system_prompt),
        }
    }
}

/// Where the prompt comes from.
pub enum PromptSource {
    Nowhere,
    Given(String),
    Stdin,
    File(String),
}

pub enum PromptSourceView {
    Nowhere,
    Given(Seq<char>),
    Stdin,
    File(Seq<char>),
}

impl View for PromptSource {
    type V = PromptSourceView;

    open spec fn view(&self) -> PromptSourceView {
        match self {
            PromptSource::Nowhere => PromptSourceView::Nowhere,
            PromptSource::Given(prompt) => PromptSourceView::Given(prompt@),
            PromptSource::Stdin => PromptSourceView::Stdin,
            PromptSource::File(path) => PromptSourceView::File(path@),
        }
    }
}

/// A prompt on the command line counts before a file; the file `-` is the
/// standard input.
pub open spec fn source_of(
    prompt: Option<Seq<char>>,
    prompt_file: Option<Seq<char>>,
) -> PromptSourceView {
    match (prompt, prompt_file) {
        (Some(prompt), _) => PromptSourceView::Given(prompt),
        (None, Some(path)) => if path == "-"@ {
            PromptSourceView::Stdin
        } else {
            PromptSourceView::File(path)
        },
        (None, None) => PromptSourceView::Nowhere,
    }
}

pub open spec fn result_text(result: Result<String, String>) -> Result<Seq<char>, Seq<char>> {
    match result {
        Ok(text) => Ok(text@),
        Err(error) => Err(error@),
    }
}

/// The prompt, where `read` is what reading its source gave.
pub open spec fn resolved_prompt(
    source: PromptSourceView,
    read: Result<Seq<char>, Seq<char>>,
) -> Result<Option<Seq<char>>, Seq<char>> {
    match (source, read) {
        (PromptSourceView::Nowhere, _) => Ok(None),
        (PromptSourceView::Given(prompt), _) => Ok(Some(prompt)),
        (_, Ok(content)) => Ok(Some(content)),
        (PromptSourceView::Stdin, Err(cause)) => Err(
            "failed to read prompt from stdin: "@ + cause,
        ),
        (PromptSourceView::File(path), Err(cause)) => Err(
            "failed to read prompt file: "@ + path + ": "@ + cause,
        ),
    }
}

/// The session: the one that is asked for, the last one, or a new one. `latest`
/// is what looking up the last one gave.
pub open spec fn known_session(
    restore: Option<Seq<char>>,
    continue_last: bool,
    latest: Result<Option<String>, String>,
) -> Option<Result<Seq<char>, Seq<char>>> {
    match restore {
        Some(id) => Some(Ok(id)),
        None => if continue_last {
            match latest {
                Ok(Some(id)) => Some(Ok(id@)),
                Ok(None) => Some(Err("no previous session found"@)),
                Err(error) => Some(Err(error@)),
            }
        } else {
            None
        },
    }
}

impl Cli {
    /// Where the prompt comes from.
    pub fn prompt_source(&self) -> (source: PromptSource)
        ensures
            source@ == source_of(maybe_text(self.prompt), maybe_text(self.prompt_file)),
    {
        match &self.prompt {
            Some(prompt) => PromptSource::Given(prompt.clone()),
            None => match &self.prompt_file {
                Some(path) => if same(path.as_str(), "-") {
                    PromptSource::Stdin
                } else {
                    PromptSource::File(path.clone())
                },
                None => PromptSource::Nowhere,
            },
        }
    }

    /// The prompt, where `read` is what reading its source gave. It matters only
    /// where the prompt comes from a file or the standard input.
    pub fn resolve_prompt(&self, read: Result<String, String>) -> (prompt: Result<
        Option<String>,
        String,
    >)
        ensures
            match prompt {
                Ok(prompt) => resolved_prompt(
                    source_of(maybe_text(self.prompt), maybe_text(self.prompt_file)),
                    result_text(read),
                ) == Ok::<Option<Seq<char>>, Seq<char>>(maybe_text(prompt)),
                Err(error) => resolved_prompt(
                    source_of(maybe_text(self.prompt), maybe_text(self.prompt_file)),
                    result_text(read),
                ) == Err::<Option<Seq<char>>, Seq<char>>(error@),
            },
    {
        match self.prompt_source() {
            PromptSource::Nowhere => Ok(None),
            PromptSource::Given(prompt) => Ok(Some(prompt)),
            PromptSource::Stdin => match read {
                Ok(content) => Ok(Some(content)),
                Err(cause) => {
                    let mut error = "failed to read prompt from stdin: ".to_string();
                    error.append(cause.as_str());
                    Err(error)
                },
            },
            PromptSource::File(path) => match read {
                Ok(content) => Ok(Some(content)),
                Err(cause) => {
                    let mut error = "failed to read prompt file: ".to_string();
                    error.append(path.as_str());
                    error.append(": ");
                    error.append(cause.as_str());
                    Err(error)
                },
            },
        }
    }

    /// The last session is asked for.
    pub fn needs_latest(&self) -> (needed: bool)
        ensures
            needed == (self.restore is None && self.continue_last),
    {
        match &self.restore {
            Some(_) => false,
            None => self.continue_last,
        }
    }

    /// The session, and whether it is an earlier one. `latest` is what looking up
    /// the last one gave; it matters only where that one is asked for.
    pub fn resolve_session(&self, latest: Result<Option<String>, String>) -> (session: Result<
        (String, bool),
        String,
    >)
        ensures
            match known_session(maybe_text(self.restore), self.continue_last, latest) {
                Some(Ok(id)) => session matches Ok(session) && session.0@ == id && session.1,
                Some(Err(error)) => session matches Err(message) && message@ == error,
                None => session matches Ok(session) && is_random_uuid(session.0@) && !session.1,
            },
    {
        match &self.restore {
            Some(id) => return Ok((id.clone(), true)),
            None => {},
        }
        if self.continue_last {
            return match latest {
                Ok(Some(id)) => Ok((id, true)),
                Ok(None) => Err("no previous session found".to_string()),
                Err(error) => Err(error),
            };
        }
        Ok((new_session_id(), false))
    }
}

/// The plugin that `name:path` stands for.
pub open spec fn tool_of_spec(spec_text: Seq<char>) -> Result<ToolConfigView, Seq<char>> {
    let k = find_char(spec_text, ':') as int;
    if k < spec_text.len() {
        Ok(
            ToolConfigView {
                name: spec_text.take(k),
                wasm: spec_text.skip(k + 1),
                description: None,
                permissions: WasmPermissionsView { mounts: Seq::empty(), env: Seq::empty() },
            },
        )
    } else {
        Err("invalid --tool format: "@ + spec_text)
    }
}

/// The plugin that a `--tool` option stands for, or what is said of one that
/// stands for none.
pub fn parse_tool_spec(spec_text: &str) -> (tool: Result<WasmToolConfig, String>)
    ensures
        match tool {
            Ok(tool) => tool_of_spec(spec_text@) == Ok::<ToolConfigView, Seq<char>>(tool@),
            Err(error) => tool_of_spec(spec_text@) == Err::<ToolConfigView, Seq<char>>(error@),
        },
{
    let chars = chars_of(spec_text);
    let k: usize = find_char_in(chars.as_slice(), ':');
    if k < chars.len() {
        let name = slice_subrange(chars.as_slice(), 0, k);
        let wasm = slice_subrange(chars.as_slice(), k + 1, chars.len());
        assert(name@ =~= spec_text@.take(k as int));
        assert(wasm@ =~= spec_text@.skip(k + 1));
        Ok(
            WasmToolConfig {
                name: string_of(name),
                wasm: string_of(wasm),
                description: None,
                permissions: WasmPermissions::default(),
            },
        )
    } else {
        let mut error = "invalid --tool format: ".to_string();
        error.append(spec_text);
        Err(error)
    }
}

/// What is said of a configuration that cannot be read.
pub fn config_error(error: &str) -> (message: String)
    ensures
        message@ == "config error: "@ + error@,
{
    let mut message = "config error: ".to_string();
    message.append(error);
    message
}

/// How the session can be continued.
pub fn resume_hint(session_id: &str) -> (hint: String)
    ensures
        hint@ == "\nTo resume this session:\n  asobi --restore "@ + session_id@,
{
    let mut hint = "\nTo resume this session:\n  asobi --restore ".to_string();
    hint.append(session_id);
    hint
}

/// Something that is printed.
pub enum Printed {
    /// A text on the standard output.
    Out(String),
    /// A line on the standard error output.
    Log(String),
}

pub enum PrintedView {
    Out(Seq<char>),
    Log(Seq<char>),
}

impl View for Printed {
    type V = PrintedView;

    open spec fn view(&self) -> PrintedView {
        match self {
            Printed::Out(text) => PrintedView::Out(text@),
            Printed::Log(line) => PrintedView::Log(line@),
        }
    }
}

/// The first two hundred characters of a text.
pub open spec fn preview(text: Seq<char>) -> Seq<char> {
    if text.len() > 200 {
        text.take(200)
    } else {
        text
    }
}

/// What is printed of what the agent tells.
pub open spec fn printed(event: AgentEventView) -> Option<PrintedView> {
    match event {
        AgentEventView::Text(text) => Some(PrintedView::Out(text)),
        AgentEventView::ToolCall { name, input } => Some(
            PrintedView::Log("[tool] "@ + name + ": "@ + input),
        ),
        AgentEventView::ToolResult { name, output } => Some(
            PrintedView::Log("[result] "@ + name + ": "@ + preview(output)),
        ),
        AgentEventView::Usage { input_tokens, output_tokens } => Some(
            PrintedView::Log(
                "[usage] input="@ + decimal(input_tokens as nat) + " output="@ + decimal(
                    output_tokens as nat,
                ),
            ),
        ),
        AgentEventView::Error(message) => Some(PrintedView::Log("[error] "@ + message)),
        AgentEventView::TurnEnd => None,
    }
}

/// A run without a screen.
#[derive(Debug, Clone, Copy, PartialEq, Eq, Structural)]
pub struct Run {
    pub has_error: bool,
    pub ended: bool,
}

impl Run {
    pub open spec fn after(self, event: AgentEventView) -> Run {
        match event {
            AgentEventView::Error(_) => Run { has_error: true, ..self },
            AgentEventView::TurnEnd => Run { ended: true, ..self },
            _ => self,
        }
    }

    pub fn new() -> (run: Run)
        ensures
            run == (Run { has_error: false, ended: false }),
    {
        Run { has_error: false, ended: false }
    }

    /// Takes in what the agent tells, and gives what is to be printed.
    pub fn receive(&mut self, event: AgentEvent) -> (shown: Option<Printed>)
        ensures
            *final(self) == old(self).after(event@),
            match shown {
                Some(shown) => printed(event@) == Some(shown@),
                None => printed(event@) is None,
            },
    {
        match event {
            AgentEvent::Text(text) => Some(Printed::Out(text)),
            AgentEvent::ToolCall { name, input } => {
                let mut line = "[tool] ".to_string();
                line.append(name.as_str());
                line.append(": ");
                line.append(input.as_str());
                Some(Printed::Log(line))
            },
            AgentEvent::ToolResult { name, output } => {
                let mut line = "[result] ".to_string();
                line.append(name.as_str());
                line.append(": ");
                line.append(first_chars(output.as_str()).as_str());
                Some(Printed::Log(line))
            },
            AgentEvent::Usage { input_tokens, output_tokens } => {
                let mut line = "[usage] input=".to_string();
                line.append(decimal_of(input_tokens as u128).as_str());
                line.append(" output=");
                line.append(decimal_of(output_tokens as u128).as_str());
                Some(Printed::Log(line))
            },
            AgentEvent::Error(message) => {
                self.has_error = true;
                let mut line = "[error] ".to_string();
                line.append(message.as_str());
                Some(Printed::Log(line))
            },
            AgentEvent::TurnEnd => {
                self.ended = true;
                None
            },
        }
    }

    /// The exit code of the program.
    pub fn exit_code(&self) -> (code: i32)
        ensures
            code == if self.has_error {
                1i32
            } else {
                0i32
            },
    {
        if self.has_error {
            1
        } else {
            0
        }
    }
}

/// The first two hundred characters of a text.
fn first_chars(text: &str) -> (short: String)
    ensures
        short@ == preview(text@),
{
    let chars = chars_of(text);
    let n: usize = if chars.len() > 200 {
        200
    } else {
        chars.len()
    };
    let short = slice_subrange(chars.as_slice(), 0, n);
    assert(short@ =~= preview(text@));
    string_of(short)
}

/// The run after some events, in order.
pub open spec fn run_after(run: Run, events: Seq<AgentEventView>) -> Run
    decreases events.len(),
{
    if events.len() == 0 {
        run
    } else {
        run_after(run, events.drop_last()).after(events.last())
    }
}

/// A run fails exactly where the agent told of an error.
pub proof fn law_run_fails_on_errors(events: Seq<AgentEventView>)
    ensures
        run_after(Run { has_error: false, ended: false }, events).has_error <==> exists|i: int|
            0 <= i < events.len() && #[trigger] events[i] is Error,
    decreases events.len(),
{
    let start = Run { has_error: false, ended: false };
    if events.len() > 0 {
        let some = events.drop_last();
        law_run_fails_on_errors(some);
        if run_after(start, some).has_error {
            let i = choose|i: int| 0 <= i < some.len() && #[trigger] some[i] is Error;
            assert(events[i] is Error);
        }
        if events.last() is Error {
            assert(events[events.len() - 1] is Error);
        }
        assert forall|i: int| 0 <= i < events.len() && #[trigger] events[i] is Error implies
            run_after(start, events).has_error by {
            if i < some.len() {
                assert(some[i] is Error);
            }
        }
    }
}

/// The standard output of a run.
pub open spec fn printed_out(events: Seq<AgentEventView>) -> Seq<char>
    decreases events.len(),
{
    if events.len() == 0 {
        seq![]
    } else {
        match printed(events.last()) {
            Some(PrintedView::Out(text)) => printed_out(events.drop_last()) + text,
            _ => printed_out(events.drop_last()),
        }
    }
}

/// The standard output is what the agent says and nothing else.
pub proof fn law_output_is_what_the_agent_says(events: Seq<AgentEventView>)
    ensures
        printed_out(events) == crate::app::told(events),
    decreases events.len(),
{
    if events.len() > 0 {
        law_output_is_what_the_agent_says(events.drop_last());
    }
}

/// What the command line says counts before what the configuration says; a model that
/// neither names is the default one.
pub proof fn law_command_line_counts_first(given: Seq<char>, other: Option<Seq<char>>)
    ensures
        first_given(Some(given), other) == Some(given),
        first_given(None, other) == other,
        DEFAULT_MODEL_ID@ == "openai.gpt-oss-120b-1:0"@,
{
}

/// A prompt on the command line counts before a file, and needs no reading; the file `-`
/// is the standard input; without either there is no prompt.
pub proof fn law_prompt_has_one_source(
    prompt: Seq<char>,
    path: Seq<char>,
    other: Option<Seq<char>>,
    read: Result<Seq<char>, Seq<char>>,
)
    ensures
        resolved_prompt(source_of(Some(prompt), other), read) == Ok::<Option<Seq<char>>, Seq<char>>(
            Some(prompt),
        ),
        resolved_prompt(source_of(None, None), read) == Ok::<Option<Seq<char>>, Seq<char>>(None),
        source_of(Some(prompt), other) == PromptSourceView::Given(prompt),
        source_of(None, None) is Nowhere,
        path.len() == 1 && path[0] == '-' ==> source_of(None, Some(path)) is Stdin,
        !(path.len() == 1 && path[0] == '-') ==> source_of(None, Some(path))
            == PromptSourceView::File(path),
{
    reveal_strlit("-");
    if path.len() == 1 && path[0] == '-' {
        assert(path =~= "-"@);
    } else if path == "-"@ {
        assert(path[0] == '-');
    }
}

/// A prompt that is read is what was read, whole; one that cannot be read is told with its
/// source and the cause.
pub proof fn law_prompt_is_what_was_read(path: Seq<char>, content: Seq<char>, cause: Seq<char>)
    ensures
        resolved_prompt(PromptSourceView::Stdin, Ok(content)) == Ok::<
            Option<Seq<char>>,
            Seq<char>,
        >(Some(content)),
        resolved_prompt(PromptSourceView::File(path), Ok(content)) == Ok::<
            Option<Seq<char>>,
            Seq<char>,
        >(Some(content)),
        resolved_prompt(PromptSourceView::Stdin, Err(cause)) == Err::<
            Option<Seq<char>>,
            Seq<char>,
        >("failed to read prompt from stdin: "@ + cause),
        resolved_prompt(PromptSourceView::File(path), Err(cause)) == Err::<
            Option<Seq<char>>,
            Seq<char>,
        >("failed to read prompt file: "@ + path + ": "@ + cause),
{
}

/// A session that is asked for counts before the last one; the last one counts only where
/// it is asked for, and where there is none that is an error.
pub proof fn law_session_that_is_asked_for_counts(
    id: Seq<char>,
    latest: Result<Option<String>, String>,
    continue_last: bool,
)
    ensures
        known_session(Some(id), continue_last, latest) == Some(Ok::<Seq<char>, Seq<char>>(id)),
        known_session(None, false, latest) is None,
        match latest {
            Ok(Some(last)) => known_session(None, true, latest) == Some(
                Ok::<Seq<char>, Seq<char>>(last@),
            ),
            Ok(None) => known_session(None, true, latest) == Some(
                Err::<Seq<char>, Seq<char>>("no previous session found"@),
            ),
            Err(error) => known_session(None, true, latest) == Some(
                Err::<Seq<char>, Seq<char>>(error@),
            ),
        },
{
}

/// A tool on the command line is a name, a colon and a path, which may have colons itself;
/// without a colon it is refused.
pub proof fn law_tool_is_named_before_the_colon(name: Seq<char>, path: Seq<char>)
    requires
        !name.contains(':'),
    ensures
        tool_of_spec(name + seq![':'] + path) matches Ok(tool) && tool.name == name && tool.wasm
            == path && tool.description is None && tool.permissions.mounts.len() == 0
            && tool.permissions.env.len() == 0,
        tool_of_spec(name) == Err::<ToolConfigView, Seq<char>>(
            "invalid --tool format: "@ + name,
        ),
{
    let all = name + seq![':'] + path;
    lemma_first_char(name, ':', path);
    assert(all =~= name.push(':') + path);
    assert(all.take(name.len() as int) =~= name);
    assert(all.skip(name.len() as int + 1) =~= path);
    law_character_is_found_first(name, ':');
    let k = find_char(name, ':') as int;
    if k < name.len() {
        assert(name.contains(name[k]));
    }
}

/// What the agent says goes to the standard output as it is; all else that it tells is
/// logged on a line with its kind in front, the result of a tool with no more than its
/// first two hundred characters. The end of a turn prints nothing.
pub proof fn law_events_are_printed(event: AgentEventView)
    ensures
        match event {
            AgentEventView::Text(text) => printed(event) == Some(PrintedView::Out(text)),
            AgentEventView::ToolCall { name, input } => printed(event) == Some(
                PrintedView::Log("[tool] "@ + name + ": "@ + input),
            ),
            AgentEventView::ToolResult { name, output } => {
                &&& output.len() <= 200 ==> printed(event) == Some(
                    PrintedView::Log("[result] "@ + name + ": "@ + output),
                )
                &&& output.len() > 200 ==> printed(event) == Some(
                    PrintedView::Log("[result] "@ + name + ": "@ + output.take(200)),
                )
            },
            AgentEventView::Usage { input_tokens, output_tokens } => printed(event) == Some(
                PrintedView::Log(
                    "[usage] input="@ + decimal(input_tokens as nat) + " output="@ + decimal(
                        output_tokens as nat,
                    ),
                ),
            ),
            AgentEventView::Error(message) => printed(event) == Some(
                PrintedView::Log("[error] "@ + message),
            ),
            AgentEventView::TurnEnd => printed(event) is None,
        },
{
}

/// A run ends exactly where the agent told of the end of a turn.
pub proof fn law_run_ends_with_the_turn(run: Run, event: AgentEventView)
    ensures
        run.after(event).ended <==> run.ended || event is TurnEnd,
        run.after(event).has_error <==> run.has_error || event is Error,
{
}

/// What reading the prompt gave is taken as it is.
pub proof fn law_read_prompt_is_taken_as_it_is(content: String, cause: String)
    ensures
        result_text(Ok(content)) == Ok::<Seq<char>, Seq<char>>(content@),
        result_text(Err(cause)) == Err::<Seq<char>, Seq<char>>(cause@),
{
}

}
