//! The tools: what the model is told of them, whether they may run, and what is
//! reported of them.
use vstd::prelude::*;
use vstd::utf8::encode_utf8;

use crate::config::{command_allowed, path_allowed, root, Permissions, PermissionsView};
use crate::conversation::{ToolResult, ToolResultView};
use crate::document::{
    document_of, document_to_json_string, get_string_param, json_of, json_value_to_document,
    string_param, Document, DocumentTree,
};
use crate::json::{empty_object, json_write, with_entry, JsonTree};
use crate::path::{absolute_parts, current_dir, is_under, CurrentDir, CurrentDirView};
use crate::plugin::{described_text, described_text_tree, object_schema, object_schema_tree};
use crate::text::{
    is_text_less, join, join_texts, law_utf8_is_shown_as_its_text, same, show_bytes, shown_text,
    signed_decimal, signed_decimal_of, text_less, texts,
};
use crate::wasm_tool::{WasmTool, WasmToolView};

verus! {

/// What the model is told of a tool.
pub struct ToolSpec {
    pub name: String,
    pub description: String,
    pub input_schema: Document,
}

pub struct ToolSpecView {
    pub name: Seq<char>,
    pub description: Seq<char>,
    pub input_schema: DocumentTree,
}

impl View for ToolSpec {
    type V = ToolSpecView;

    open spec fn view(&self) -> ToolSpecView {
        ToolSpecView {
            name: self.name@,
            description: self.description@,
            input_schema: self.input_schema.tree(),
        }
    }
}

pub open spec fn spec_views(specs: Seq<ToolSpec>) -> Seq<ToolSpecView> {
    specs.map_values(|s: ToolSpec| s@)
}

/// A tool with one parameter, a text.
pub open spec fn one_param_tool(
    name: Seq<char>,
    description: Seq<char>,
    param: Seq<char>,
    param_description: Seq<char>,
) -> ToolSpecView {
    ToolSpecView {
        name,
        description,
        input_schema: document_of(
            object_schema_tree(
                map![param => described_text_tree(param_description)],
                seq![param],
            ),
        ),
    }
}

pub open spec fn read_file_spec() -> ToolSpecView {
    one_param_tool(
        "read_file"@,
        "Read the contents of a file"@,
        "path"@,
        "Path to the file to read"@,
    )
}

pub open spec fn write_file_spec() -> ToolSpecView {
    ToolSpecView {
        name: "write_file"@,
        description: "Write content to a file, creating it if it doesn't exist"@,
        input_schema: document_of(
            object_schema_tree(
                map![
                    "path"@ => described_text_tree("Path to the file to write"@),
                    "content"@ => described_text_tree("Content to write to the file"@),
                ],
                seq!["path"@, "content"@],
            ),
        ),
    }
}

pub open spec fn run_command_spec() -> ToolSpecView {
    one_param_tool(
        "run_command"@,
        "Execute a shell command and return its stdout and stderr"@,
        "command"@,
        "Shell command to execute"@,
    )
}

pub open spec fn list_files_spec() -> ToolSpecView {
    one_param_tool(
        "list_files"@,
        "List files and directories in the specified path"@,
        "path"@,
        "Directory path to list files in"@,
    )
}

/// The tools that are always there.
pub open spec fn builtin_specs() -> Seq<ToolSpecView> {
    seq![read_file_spec(), write_file_spec(), run_command_spec(), list_files_spec()]
}

/// A plugin, as the model is told of it.
pub open spec fn plugin_spec(tool: WasmToolView) -> ToolSpecView {
    ToolSpecView {
        name: tool.name,
        description: tool.description,
        input_schema: document_of(tool.schema),
    }
}

/// A tool with one parameter, a text.
fn one_param_def(
    name: &str,
    description: &str,
    param: &str,
    param_description: &str,
) -> (tool: ToolSpec)
    ensures
        tool@ == one_param_tool(name@, description@, param@, param_description@),
{
    let properties = with_entry(empty_object(), param, described_text(param_description));
    assert(properties.tree()->Object_0 =~= map![param@ => described_text_tree(param_description@)]);
    let mut required: Vec<&str> = Vec::new();
    required.push(param);
    assert(required@.map_values(|s: &str| s@) =~= seq![param@]);
    let schema = object_schema(properties, &required);
    ToolSpec {
        name: name.to_string(),
        description: description.to_string(),
        input_schema: json_value_to_document(&schema),
    }
}

fn read_file_def() -> (tool: ToolSpec)
    ensures
        tool@ == read_file_spec(),
{
    one_param_def("read_file", "Read the contents of a file", "path", "Path to the file to read")
}

fn write_file_def() -> (tool: ToolSpec)
    ensures
        tool@ == write_file_spec(),
{
    let properties = with_entry(
        with_entry(empty_object(), "path", described_text("Path to the file to write")),
        "content",
        described_text("Content to write to the file"),
    );
    assert(properties.tree()->Object_0 =~= map![
        "path"@ => described_text_tree("Path to the file to write"@),
        "content"@ => described_text_tree("Content to write to the file"@),
    ]);
    let mut required: Vec<&str> = Vec::new();
    required.push("path");
    required.push("content");
    assert(required@.map_values(|s: &str| s@) =~= seq!["path"@, "content"@]);
    let schema = object_schema(properties, &required);
    ToolSpec {
        name: "write_file".to_string(),
        description: "Write content to a file, creating it if it doesn't exist".to_string(),
        input_schema: json_value_to_document(&schema),
    }
}

fn run_command_def() -> (tool: ToolSpec)
    ensures
        tool@ == run_command_spec(),
{
    one_param_def(
        "run_command",
        "Execute a shell command and return its stdout and stderr",
        "command",
        "Shell command to execute",
    )
}

fn list_files_def() -> (tool: ToolSpec)
    ensures
        tool@ == list_files_spec(),
{
    one_param_def(
        "list_files",
        "List files and directories in the specified path",
        "path",
        "Directory path to list files in",
    )
}

/// The tools that are always there.
pub fn builtin_definitions() -> (tools: Vec<ToolSpec>)
    ensures
        spec_views(tools@) == builtin_specs(),
{
    let mut tools: Vec<ToolSpec> = Vec::new();
    tools.push(read_file_def());
    tools.push(write_file_def());
    tools.push(run_command_def());
    tools.push(list_files_def());
    assert(spec_views(tools@) =~= builtin_specs());
    tools
}

/// What came of loading the plugin that the configuration calls `name`.
pub struct Loaded {
    pub name: String,
    pub result: Result<WasmTool, String>,
}

pub struct LoadedView {
    pub name: Seq<char>,
    pub result: Result<WasmToolView, Seq<char>>,
}

impl View for Loaded {
    type V = LoadedView;

    open spec fn view(&self) -> LoadedView {
        LoadedView {
            name: self.name@,
            result: match self.result {
                Ok(tool) => Ok(tool@),
                Err(error) => Err(error@),
            },
        }
    }
}

pub open spec fn loaded_views(loads: Seq<Loaded>) -> Seq<LoadedView> {
    loads.map_values(|l: Loaded| l@)
}

/// The tools, and what they may do.
pub struct ToolRegistry {
    pub wasm_tools: Vec<WasmTool>,
    pub permissions: Permissions,
}

#[verifier::ext_equal]
pub struct RegistryView {
    pub wasm_tools: Seq<WasmToolView>,
    pub permissions: PermissionsView,
}

pub open spec fn plugin_views(tools: Seq<WasmTool>) -> Seq<WasmToolView> {
    tools.map_values(|t: WasmTool| t@)
}

impl View for ToolRegistry {
    type V = RegistryView;

    open spec fn view(&self) -> RegistryView {
        RegistryView {
            wasm_tools: plugin_views(self.wasm_tools@),
            permissions: self.permissions@,
        }
    }
}

impl RegistryView {
    /// No two plugins have the same name.
    pub open spec fn wf(self) -> bool {
        plugins_differ(self.wasm_tools)
    }
}

pub open spec fn plugins_differ(tools: Seq<WasmToolView>) -> bool {
    forall|i: int, j: int|
        0 <= i < j < tools.len() ==> #[trigger] tools[i].name != #[trigger] tools[j].name
}

/// Where the plugin of a name is.
pub open spec fn find_plugin(tools: Seq<WasmToolView>, name: Seq<char>) -> Option<int>
    decreases tools.len(),
{
    if tools.len() == 0 {
        None
    } else if tools.last().name == name {
        Some(tools.len() - 1)
    } else {
        find_plugin(tools.drop_last(), name)
    }
}

/// With one plugin more. It takes the place of one of the same name.
pub open spec fn with_plugin(tools: Seq<WasmToolView>, tool: WasmToolView) -> Seq<WasmToolView> {
    match find_plugin(tools, tool.name) {
        Some(i) => tools.update(i, tool),
        None => tools.push(tool),
    }
}

/// The plugins that could be loaded.
pub open spec fn registered(loads: Seq<LoadedView>) -> Seq<WasmToolView>
    decreases loads.len(),
{
    if loads.len() == 0 {
        seq![]
    } else {
        let some = registered(loads.drop_last());
        match loads.last().result {
            Ok(tool) => with_plugin(some, tool),
            Err(_) => some,
        }
    }
}

/// What is logged of loading a plugin.
pub open spec fn load_log(load: LoadedView) -> Seq<char> {
    match load.result {
        Ok(tool) => "[plugin] loaded: "@ + tool.name,
        Err(error) => "[plugin] failed to load "@ + load.name + ": "@ + error,
    }
}

/// What a tool that may run has to do.
pub enum ToolAction {
    ReadFile { path: String },
    WriteFile { path: String, content: String },
    RunCommand { command: String },
    ListFiles { path: String },
    RunPlugin { index: usize, input: String },
}

pub enum ToolActionView {
    ReadFile { path: Seq<char> },
    WriteFile { path: Seq<char>, content: Seq<char> },
    RunCommand { command: Seq<char> },
    ListFiles { path: Seq<char> },
    RunPlugin { index: int, input: Seq<char> },
}

impl View for ToolAction {
    type V = ToolActionView;

    open spec fn view(&self) -> ToolActionView {
        match self {
            ToolAction::ReadFile { path } => ToolActionView::ReadFile { path: path@ },
            ToolAction::WriteFile { path, content } => ToolActionView::WriteFile {
                path: path@,
                content: content@,
            },
            ToolAction::RunCommand { command } => ToolActionView::RunCommand { command: command@ },
            ToolAction::ListFiles { path } => ToolActionView::ListFiles { path: path@ },
            ToolAction::RunPlugin { index, input } => ToolActionView::RunPlugin {
                index: *index as int,
                input: input@,
            },
        }
    }
}

/// A parameter, or what stands for it where it is missing or no text.
pub open spec fn param_or(
    input: DocumentTree,
    key: Seq<char>,
    default: Seq<char>,
) -> Seq<char> {
    match string_param(input, key) {
        Ok(text) => text,
        Err(_) => default,
    }
}

/// What reading a file has to do.
pub open spec fn read_action(input: DocumentTree) -> Result<ToolActionView, Seq<char>> {
    match string_param(input, "path"@) {
        Ok(path) => Ok(ToolActionView::ReadFile { path }),
        Err(error) => Err(error),
    }
}

/// What writing a file has to do.
pub open spec fn write_action(input: DocumentTree) -> Result<ToolActionView, Seq<char>> {
    match (string_param(input, "path"@), string_param(input, "content"@)) {
        (Ok(path), Ok(content)) => Ok(ToolActionView::WriteFile { path, content }),
        (Ok(_), Err(error)) => Err(error),
        (Err(error), _) => Err(error),
    }
}

/// What running a command has to do.
pub open spec fn command_action(input: DocumentTree) -> Result<ToolActionView, Seq<char>> {
    match string_param(input, "command"@) {
        Ok(command) => Ok(ToolActionView::RunCommand { command }),
        Err(error) => Err(error),
    }
}

/// What listing files has to do. The empty path is the current directory.
pub open spec fn list_action(input: DocumentTree) -> Result<ToolActionView, Seq<char>> {
    match string_param(input, "path"@) {
        Ok(path) => Ok(
            ToolActionView::ListFiles {
                path: if path.len() == 0 {
                    "."@
                } else {
                    path
                },
            },
        ),
        Err(error) => Err(error),
    }
}

/// What a tool has to do, or why it does nothing.
pub open spec fn planned(
    registry: RegistryView,
    name: Seq<char>,
    input: DocumentTree,
    cwd: CurrentDirView,
) -> Result<ToolActionView, Seq<char>> {
    if name == "read_file"@ {
        let path = param_or(input, "path"@, Seq::empty());
        if path_allowed(registry.permissions.fs_read, path, cwd) {
            read_action(input)
        } else {
            Err("permission denied: read "@ + path)
        }
    } else if name == "write_file"@ {
        let path = param_or(input, "path"@, Seq::empty());
        if path_allowed(registry.permissions.fs_write, path, cwd) {
            write_action(input)
        } else {
            Err("permission denied: write "@ + path)
        }
    } else if name == "run_command"@ {
        let command = param_or(input, "command"@, Seq::empty());
        if command_allowed(registry.permissions, command) {
            command_action(input)
        } else {
            Err("permission denied: command "@ + command)
        }
    } else if name == "list_files"@ {
        let path = param_or(input, "path"@, "."@);
        if path_allowed(registry.permissions.fs_read, path, cwd) {
            list_action(input)
        } else {
            Err("permission denied: list "@ + path)
        }
    } else {
        match find_plugin(registry.wasm_tools, name) {
            Some(index) => Ok(
                ToolActionView::RunPlugin { index, input: json_write(json_of(input)) },
            ),
            None => Err("unknown tool: "@ + name),
        }
    }
}

/// One text after another.
fn labelled(label: &str, text: &str) -> (both: String)
    ensures
        both@ == label@ + text@,
{
    let mut both = label.to_string();
    both.append(text);
    both
}

/// `label`, `text`, a colon and `cause`.
fn failure(label: &str, text: &str, cause: &str) -> (message: String)
    ensures
        message@ == label@ + text@ + ": "@ + cause@,
{
    let mut message = label.to_string();
    message.append(text);
    message.append(": ");
    message.append(cause);
    message
}

/// A parameter, or what stands for it where it is missing or no text.
fn param_or_default(input: &Document, key: &str, default: &str) -> (text: String)
    ensures
        text@ == param_or(input.tree(), key@, default@),
{
    match get_string_param(input, key) {
        Ok(text) => text.to_string(),
        Err(_) => default.to_string(),
    }
}

pub open spec fn action_view(action: Result<ToolAction, String>) -> Result<
    ToolActionView,
    Seq<char>,
> {
    match action {
        Ok(action) => Ok(action@),
        Err(error) => Err(error@),
    }
}

fn plan_read_file(input: &Document) -> (action: Result<ToolAction, String>)
    ensures
        action_view(action) == read_action(input.tree()),
{
    match get_string_param(input, "path") {
        Ok(path) => Ok(ToolAction::ReadFile { path: path.to_string() }),
        Err(error) => Err(error),
    }
}

fn plan_write_file(input: &Document) -> (action: Result<ToolAction, String>)
    ensures
        action_view(action) == write_action(input.tree()),
{
    match get_string_param(input, "path") {
        Ok(path) => match get_string_param(input, "content") {
            Ok(content) => Ok(
                ToolAction::WriteFile { path: path.to_string(), content: content.to_string() },
            ),
            Err(error) => Err(error),
        },
        Err(error) => Err(error),
    }
}

fn plan_run_command(input: &Document) -> (action: Result<ToolAction, String>)
    ensures
        action_view(action) == command_action(input.tree()),
{
    match get_string_param(input, "command") {
        Ok(command) => Ok(ToolAction::RunCommand { command: command.to_string() }),
        Err(error) => Err(error),
    }
}

fn plan_list_files(input: &Document) -> (action: Result<ToolAction, String>)
    ensures
        action_view(action) == list_action(input.tree()),
{
    match get_string_param(input, "path") {
        Ok(path) => if path.is_empty() {
            Ok(ToolAction::ListFiles { path: ".".to_string() })
        } else {
            Ok(ToolAction::ListFiles { path: path.to_string() })
        },
        Err(error) => Err(error),
    }
}

impl ToolRegistry {
    /// The tools with the plugins that could be loaded, and what is logged of
    /// loading them.
    pub fn new(loads: Vec<Loaded>, permissions: Permissions) -> (made: (ToolRegistry, Vec<String>))
        ensures
            made.0@ == (RegistryView {
                wasm_tools: registered(loaded_views(loads@)),
                permissions: permissions@,
            }),
            made.0@.wf(),
            texts(made.1@) == loaded_views(loads@).map_values(|l: LoadedView| load_log(l)),
    {
        let ghost all = loaded_views(loads@);
        let ghost logged = all.map_values(|l: LoadedView| load_log(l));
        let mut registry = ToolRegistry { wasm_tools: Vec::new(), permissions };
        let mut log: Vec<String> = Vec::new();
        assert(all.take(0) =~= Seq::empty());
        assert(plugin_views(registry.wasm_tools@) =~= registered(all.take(0)));
        for load in iter: loads
            invariant
                iter.seq() == loads@,
                all == loaded_views(loads@),
                logged == all.map_values(|l: LoadedView| load_log(l)),
                registry@ == (RegistryView {
                    wasm_tools: registered(all.take(iter.index())),
                    permissions: permissions@,
                }),
                registry@.wf(),
                texts(log@) =~= logged.take(iter.index()),
        {
            let ghost i = iter.index();
            let ghost before = log@;
            assert(all[i] == load@);
            assert(all.take(i + 1).drop_last() =~= all.take(i));
            assert(all.take(i + 1).last() == load@);
            let line = match load.result {
                Ok(tool) => {
                    let line = labelled("[plugin] loaded: ", tool.name.as_str());
                    registry.register(tool);
                    line
                },
                Err(error) => failure(
                    "[plugin] failed to load ",
                    load.name.as_str(),
                    error.as_str(),
                ),
            };
            let ghost added = line@;
            log.push(line);
            assert(added == logged[i]);
            assert(texts(log@) =~= texts(before).push(added));
            assert(texts(log@) =~= logged.take(i + 1));
        }
        assert(all.take(loads@.len() as int) =~= all);
        assert(logged.take(loads@.len() as int) =~= logged);
        (registry, log)
    }

    /// Adds a plugin. It takes the place of one of the same name.
    pub fn register(&mut self, tool: WasmTool)
        requires
            old(self)@.wf(),
        ensures
            final(self)@ == (RegistryView {
                wasm_tools: with_plugin(old(self)@.wasm_tools, tool@),
                ..old(self)@
            }),
            final(self)@.wf(),
    {
        let ghost before = self@.wasm_tools;
        let ghost added = tool@;
        proof {
            lemma_find_plugin(before, added.name);
        }
        match self.find(tool.name.as_str()) {
            Some(i) => {
                self.wasm_tools.set(i, tool);
                assert(self@.wasm_tools =~= before.update(i as int, added));
            },
            None => {
                self.wasm_tools.push(tool);
                assert(self@.wasm_tools =~= before.push(added));
            },
        }
    }

    /// Where the plugin of a name is.
    pub fn find(&self, name: &str) -> (found: Option<usize>)
        ensures
            match found {
                Some(i) => i < self@.wasm_tools.len() && find_plugin(self@.wasm_tools, name@)
                    == Some(i as int),
                None => find_plugin(self@.wasm_tools, name@) is None,
            },
    {
        let ghost all = self@.wasm_tools;
        let mut n: usize = self.wasm_tools.len();
        assert(all.take(n as int) =~= all);
        while n > 0
            invariant
                all == plugin_views(self.wasm_tools@),
                n <= self.wasm_tools@.len(),
                find_plugin(all, name@) == find_plugin(all.take(n as int), name@),
            decreases n,
        {
            assert(all.take(n as int).drop_last() =~= all.take(n - 1));
            assert(all.take(n as int).last() == self.wasm_tools@[n - 1]@);
            if same(self.wasm_tools[n - 1].name.as_str(), name) {
                return Some(n - 1);
            }
            n -= 1;
        }
        None
    }

    /// What the model is told of the tools.
    pub fn tool_definitions(&self) -> (tools: Vec<ToolSpec>)
        ensures
            spec_views(tools@) == builtin_specs() + self@.wasm_tools.map_values(
                |t: WasmToolView| plugin_spec(t),
            ),
    {
        let ghost plugins = self@.wasm_tools.map_values(|t: WasmToolView| plugin_spec(t));
        let mut tools = builtin_definitions();
        let mut i: usize = 0;
        assert(spec_views(tools@) =~= builtin_specs() + plugins.take(0));
        while i < self.wasm_tools.len()
            invariant
                plugins == self@.wasm_tools.map_values(|t: WasmToolView| plugin_spec(t)),
                i <= self.wasm_tools@.len(),
                spec_views(tools@) == builtin_specs() + plugins.take(i as int),
            decreases self.wasm_tools@.len() - i,
        {
            let ghost before = tools@;
            let tool = &self.wasm_tools[i];
            let added = ToolSpec {
                name: tool.name.clone(),
                description: tool.description.clone(),
                input_schema: json_value_to_document(&tool.schema),
            };
            let ghost view = added@;
            assert(self@.wasm_tools[i as int] == tool@);
            tools.push(added);
            assert(spec_views(tools@) =~= spec_views(before).push(view));
            assert(spec_views(tools@) =~= builtin_specs() + plugins.take(i + 1));
            i += 1;
        }
        assert(plugins.take(i as int) =~= plugins);
        tools
    }

    /// What a tool has to do, or why it does nothing. Relative paths are seen
    /// from the current directory.
    pub fn execute_tool(&self, name: &str, input: &Document) -> (action: Result<
        ToolAction,
        String,
    >)
        ensures
            exists|cwd: CurrentDirView|
                action_view(action) == #[trigger] planned(self@, name@, input.tree(), cwd),
    {
        let cwd = current_dir();
        self.execute_tool_from(name, input, &cwd)
    }

    /// What a tool has to do, or why it does nothing. Relative paths are seen
    /// from `cwd`.
    pub fn execute_tool_from(&self, name: &str, input: &Document, cwd: &CurrentDir) -> (action:
        Result<ToolAction, String>)
        ensures
            action_view(action) == planned(self@, name@, input.tree(), cwd@),
    {
        if same(name, "read_file") {
            let path = param_or_default(input, "path", "");
            assert(""@ =~= Seq::<char>::empty()) by {
                reveal_strlit("");
            }
            if self.permissions.is_path_readable_from(path.as_str(), cwd) {
                plan_read_file(input)
            } else {
                Err(labelled("permission denied: read ", path.as_str()))
            }
        } else if same(name, "write_file") {
            let path = param_or_default(input, "path", "");
            assert(""@ =~= Seq::<char>::empty()) by {
                reveal_strlit("");
            }
            if self.permissions.is_path_writable_from(path.as_str(), cwd) {
                plan_write_file(input)
            } else {
                Err(labelled("permission denied: write ", path.as_str()))
            }
        } else if same(name, "run_command") {
            let command = param_or_default(input, "command", "");
            assert(""@ =~= Seq::<char>::empty()) by {
                reveal_strlit("");
            }
            if self.permissions.is_command_allowed(command.as_str()) {
                plan_run_command(input)
            } else {
                Err(labelled("permission denied: command ", command.as_str()))
            }
        } else if same(name, "list_files") {
            let path = param_or_default(input, "path", ".");
            if self.permissions.is_path_readable_from(path.as_str(), cwd) {
                plan_list_files(input)
            } else {
                Err(labelled("permission denied: list ", path.as_str()))
            }
        } else {
            match self.find(name) {
                Some(index) => Ok(
                    ToolAction::RunPlugin { index, input: document_to_json_string(input) },
                ),
                None => Err(labelled("unknown tool: ", name)),
            }
        }
    }
}

/// A plugin that is found has the name, and is one of the plugins; where none is
/// found, none has the name.
proof fn lemma_find_plugin(tools: Seq<WasmToolView>, name: Seq<char>)
    ensures
        match find_plugin(tools, name) {
            Some(i) => 0 <= i < tools.len() && tools[i].name == name,
            None => forall|i: int| 0 <= i < tools.len() ==> #[trigger] tools[i].name != name,
        },
    decreases tools.len(),
{
    if tools.len() > 0 {
        lemma_find_plugin(tools.drop_last(), name);
        if find_plugin(tools, name) is None {
            assert forall|i: int| 0 <= i < tools.len() implies #[trigger] tools[i].name != name by {
                if i < tools.len() - 1 {
                    assert(tools.drop_last()[i].name != name);
                }
            }
        }
    }
}

/// What a tool gave, for the model.
pub open spec fn tool_result(
    tool_use_id: Seq<char>,
    result: Result<String, String>,
) -> ToolResultView {
    match result {
        Ok(output) => ToolResultView { tool_use_id, text: output@, is_error: false },
        Err(error) => ToolResultView { tool_use_id, text: "Error: "@ + error@, is_error: true },
    }
}

/// What a tool gave, for the model.
pub fn build_tool_result(tool_use_id: &str, result: Result<String, String>) -> (block: ToolResult)
    ensures
        block@ == tool_result(tool_use_id@, result),
{
    match result {
        Ok(output) => ToolResult {
            tool_use_id: tool_use_id.to_string(),
            text: output,
            is_error: false,
        },
        Err(error) => ToolResult {
            tool_use_id: tool_use_id.to_string(),
            text: labelled("Error: ", error.as_str()),
            is_error: true,
        },
    }
}

/// What is reported of a file that was to be read.
pub fn exec_read_file(path: &str, read: Result<String, String>) -> (report: Result<String, String>)
    ensures
        match read {
            Ok(content) => report == Ok::<String, String>(content),
            Err(cause) => report matches Err(message) && message@ == "failed to read "@ + path@
                + ": "@ + cause@,
        },
{
    match read {
        Ok(content) => Ok(content),
        Err(cause) => Err(failure("failed to read ", path, cause.as_str())),
    }
}

/// Why a file could not be written.
pub enum FileError {
    CreateDir(String),
    Write(String),
}

/// What is reported of a file that was to be written.
pub fn exec_write_file(path: &str, written: Result<(), FileError>) -> (report: Result<
    String,
    String,
>)
    ensures
        match written {
            Ok(_) => report matches Ok(text) && text@ == "Written to "@ + path@,
            Err(FileError::CreateDir(cause)) => report == Err::<String, String>(cause),
            Err(FileError::Write(cause)) => report matches Err(message) && message@
                == "failed to write "@ + path@ + ": "@ + cause@,
        },
{
    match written {
        Ok(_) => Ok(labelled("Written to ", path)),
        Err(FileError::CreateDir(cause)) => Err(cause),
        Err(FileError::Write(cause)) => Err(failure("failed to write ", path, cause.as_str())),
    }
}

/// What a command left. A command that a signal ended has no code.
pub struct CommandOutput {
    pub code: Option<i32>,
    pub stdout: Vec<u8>,
    pub stderr: Vec<u8>,
}

/// What is reported of a command that ran.
pub open spec fn command_report(output: CommandOutput) -> Seq<char> {
    let code = match output.code {
        Some(code) => code as int,
        None => -1,
    };
    "exit code: "@ + signed_decimal(code) + "\n--- stdout ---\n"@ + shown_text(output.stdout@)
        + "--- stderr ---\n"@ + shown_text(output.stderr@)
}

/// What is reported of a command that was to run.
pub fn exec_run_command(command: &str, ran: Result<CommandOutput, String>) -> (report: Result<
    String,
    String,
>)
    ensures
        match ran {
            Ok(output) => report matches Ok(text) && text@ == command_report(output),
            Err(cause) => report matches Err(message) && message@ == "failed to execute: "@
                + command@ + ": "@ + cause@,
        },
{
    match ran {
        Ok(output) => {
            let code: i32 = match output.code {
                Some(code) => code,
                None => -1,
            };
            let mut text = "exit code: ".to_string();
            text.append(signed_decimal_of(code).as_str());
            text.append("\n--- stdout ---\n");
            text.append(show_bytes(output.stdout.as_slice()).as_str());
            text.append("--- stderr ---\n");
            text.append(show_bytes(output.stderr.as_slice()).as_str());
            Ok(text)
        },
        Err(cause) => Err(failure("failed to execute: ", command, cause.as_str())),
    }
}

/// A file of a directory.
pub struct DirEntry {
    pub name: String,
    pub is_dir: bool,
}

/// Why a directory could not be listed.
pub enum ListError {
    Open(String),
    Entry(String),
}

/// A file as it is listed: a directory with a slash behind it.
pub open spec fn listed_name(entry: DirEntry) -> Seq<char> {
    if entry.is_dir {
        entry.name@ + "/"@
    } else {
        entry.name@
    }
}

/// A sorted list of texts with one text more.
pub open spec fn inserted_text(list: Seq<Seq<char>>, text: Seq<char>) -> Seq<Seq<char>>
    decreases list.len(),
{
    if list.len() == 0 || !text_less(text, list.last()) {
        list.push(text)
    } else {
        inserted_text(list.drop_last(), text).push(list.last())
    }
}

/// The texts in order.
pub open spec fn sorted_texts(list: Seq<Seq<char>>) -> Seq<Seq<char>>
    decreases list.len(),
{
    if list.len() == 0 {
        seq![]
    } else {
        inserted_text(sorted_texts(list.drop_last()), list.last())
    }
}

/// What is reported of a directory.
pub open spec fn listing(entries: Seq<DirEntry>) -> Seq<char> {
    join(sorted_texts(entries.map_values(|e: DirEntry| listed_name(e))), "\n"@)
}

/// Puts a text where it belongs in a sorted list.
fn insert_text(list: &mut Vec<String>, text: String)
    ensures
        texts(final(list)@) == inserted_text(texts(old(list)@), text@),
{
    let ghost all = texts(list@);
    let ghost added = text@;
    let mut n: usize = list.len();
    assert(all.take(n as int) =~= all);
    assert(inserted_text(all.take(n as int), added) + all.skip(n as int) =~= inserted_text(
        all,
        added,
    ));
    while n > 0 && is_text_less(text.as_str(), list[n - 1].as_str())
        invariant
            all == texts(list@),
            added == text@,
            n <= list@.len(),
            inserted_text(all.take(n as int), added) + all.skip(n as int) == inserted_text(
                all,
                added,
            ),
        decreases n,
    {
        proof {
            let head = all.take(n as int);
            assert(head.last() == list@[n - 1]@);
            assert(head.drop_last() =~= all.take(n - 1));
            assert(inserted_text(head, added) + all.skip(n as int) =~= inserted_text(
                all.take(n - 1),
                added,
            ) + all.skip(n - 1));
        }
        n -= 1;
    }
    proof {
        let head = all.take(n as int);
        if n > 0 {
            assert(head.last() == list@[n - 1]@);
        }
        assert(inserted_text(head, added) == head.push(added));
    }
    let ghost before = list@;
    list.insert(n, text);
    assert(texts(list@) =~= all.take(n as int).push(added) + all.skip(n as int));
}

/// What is reported of a directory that was to be listed.
pub fn exec_list_files(path: &str, listed: Result<Vec<DirEntry>, ListError>) -> (report: Result<
    String,
    String,
>)
    ensures
        match listed {
            Ok(entries) => report matches Ok(text) && text@ == listing(entries@),
            Err(ListError::Open(cause)) => report matches Err(message) && message@
                == "failed to read directory "@ + path@ + ": "@ + cause@,
            Err(ListError::Entry(cause)) => report == Err::<String, String>(cause),
        },
{
    match listed {
        Ok(entries) => {
            let ghost all = entries@.map_values(|e: DirEntry| listed_name(e));
            let mut names: Vec<String> = Vec::new();
            let mut i: usize = 0;
            assert(all.take(0) =~= Seq::empty());
            assert(texts(names@) =~= sorted_texts(all.take(0)));
            while i < entries.len()
                invariant
                    all == entries@.map_values(|e: DirEntry| listed_name(e)),
                    i <= entries@.len(),
                    texts(names@) == sorted_texts(all.take(i as int)),
                decreases entries@.len() - i,
            {
                let mut name = entries[i].name.clone();
                if entries[i].is_dir {
                    name.append("/");
                }
                insert_text(&mut names, name);
                assert(all.take(i + 1).drop_last() =~= all.take(i as int));
                i += 1;
            }
            assert(all.take(i as int) =~= all);
            Ok(join_texts(&names, "\n"))
        },
        Err(ListError::Open(cause)) => Err(
            failure("failed to read directory ", path, cause.as_str()),
        ),
        Err(ListError::Entry(cause)) => Err(cause),
    }
}

/// A tool that runs may do what it does: nothing is read, listed, written or
/// run that the permissions do not allow.
pub proof fn law_tools_keep_to_permissions(
    registry: RegistryView,
    name: Seq<char>,
    input: DocumentTree,
    cwd: CurrentDirView,
)
    ensures
        match planned(registry, name, input, cwd) {
            Ok(ToolActionView::ReadFile { path }) => path_allowed(
                registry.permissions.fs_read,
                path,
                cwd,
            ),
            Ok(ToolActionView::WriteFile { path, content }) => path_allowed(
                registry.permissions.fs_write,
                path,
                cwd,
            ),
            Ok(ToolActionView::RunCommand { command }) => command_allowed(
                registry.permissions,
                command,
            ),
            Ok(ToolActionView::ListFiles { path }) => path_allowed(
                registry.permissions.fs_read,
                path,
                cwd,
            ),
            _ => true,
        },
{
    if name != "read_file"@ && name != "write_file"@ && name != "run_command"@ && name
        == "list_files"@ {
        if let Ok(path) = string_param(input, "path"@) {
            if path.len() == 0 && path_allowed(registry.permissions.fs_read, path, cwd) {
                lemma_where_nothing_is_allowed(registry.permissions.fs_read, path, "."@, cwd);
            }
        }
    }
}

/// Where the empty path is allowed, so is every other.
proof fn lemma_where_nothing_is_allowed(
    allowed: Seq<Seq<char>>,
    empty: Seq<char>,
    path: Seq<char>,
    cwd: CurrentDirView,
)
    requires
        empty.len() == 0,
        path_allowed(allowed, empty, cwd),
    ensures
        path_allowed(allowed, path, cwd),
{
    if !allowed.contains(root()) {
        let i = choose|i: int|
            0 <= i < allowed.len() && is_under(
                absolute_parts(empty, cwd),
                absolute_parts(#[trigger] allowed[i], cwd),
            );
        let base = absolute_parts(allowed[i], cwd);
        let nowhere = absolute_parts(empty, cwd);
        assert(empty.take(0) =~= Seq::empty());
        assert(!(empty.take(0) == seq!['.'])) by {
            assert(seq!['.'].len() == 1);
        }
        assert(nowhere.names.len() == 0);
        assert(base.names.len() == 0);
        assert(is_under(absolute_parts(path, cwd), base));
    }
}

/// A plugin that was added is the one found under its name, and the others are
/// still found.
pub proof fn law_registered_plugin_is_found(
    tools: Seq<WasmToolView>,
    tool: WasmToolView,
    name: Seq<char>,
)
    requires
        plugins_differ(tools),
    ensures
        match find_plugin(with_plugin(tools, tool), name) {
            Some(i) => {
                if name == tool.name {
                    with_plugin(tools, tool)[i] == tool
                } else {
                    find_plugin(tools, name) == Some(i) && with_plugin(tools, tool)[i] == tools[i]
                }
            },
            None => name != tool.name && find_plugin(tools, name) is None,
        },
{
    let more = with_plugin(tools, tool);
    lemma_find_plugin(tools, tool.name);
    lemma_find_plugin(tools, name);
    lemma_find_plugin(more, name);
    match find_plugin(tools, tool.name) {
        Some(k) => {
            assert(more[k] == tool);
            if name != tool.name {
                if let Some(i) = find_plugin(tools, name) {
                    assert(more[i] == tools[i]);
                    assert(more[i].name == name);
                }
            }
        },
        None => {
            assert(more[tools.len() as int] == tool);
            if name != tool.name {
                if let Some(i) = find_plugin(tools, name) {
                    assert(more[i] == tools[i]);
                    assert(more[i].name == name);
                }
            }
        },
    }
}

/// A listing is in order: no name comes after one that it is less than.
pub open spec fn in_order(list: Seq<Seq<char>>) -> bool {
    forall|i: int, j: int|
        0 <= i < j < list.len() ==> !text_less(#[trigger] list[j], #[trigger] list[i])
}

/// Sorting puts the texts in order and keeps each as often as it was there.
pub proof fn law_sorting_orders(list: Seq<Seq<char>>)
    ensures
        in_order(sorted_texts(list)),
        sorted_texts(list).to_multiset() == list.to_multiset(),
    decreases list.len(),
{
    broadcast use vstd::seq_lib::group_to_multiset_ensures;

    if list.len() > 0 {
        law_sorting_orders(list.drop_last());
        lemma_inserting(sorted_texts(list.drop_last()), list.last());
        assert(list =~= list.drop_last().push(list.last()));
    } else {
        assert(sorted_texts(list) =~= list);
    }
}

proof fn lemma_inserting(list: Seq<Seq<char>>, text: Seq<char>)
    requires
        in_order(list),
    ensures
        in_order(inserted_text(list, text)),
        inserted_text(list, text).to_multiset() == list.to_multiset().insert(text),
    decreases list.len(),
{
    broadcast use vstd::seq_lib::group_to_multiset_ensures;

    let more = inserted_text(list, text);
    if list.len() == 0 || !text_less(text, list.last()) {
        assert forall|i: int, j: int| 0 <= i < j < more.len() implies !text_less(
            #[trigger] more[j],
            #[trigger] more[i],
        ) by {
            if j == list.len() {
                if i < list.len() - 1 {
                    assert(!text_less(list.last(), list[i]));
                    if text_less(text, list[i]) {
                        lemma_less_or_not(text, list[i], list.last());
                    }
                }
            }
        }
    } else {
        let rest = list.drop_last();
        assert(in_order(rest));
        lemma_inserting(rest, text);
        let some = inserted_text(rest, text);
        assert forall|i: int, j: int| 0 <= i < j < more.len() implies !text_less(
            #[trigger] more[j],
            #[trigger] more[i],
        ) by {
            if j < some.len() {
                assert(!text_less(some[j], some[i]));
            } else {
                assert(some.to_multiset().count(some[i]) > 0);
                if some[i] == text {
                    lemma_less_one_way(text, list.last());
                } else {
                    assert(rest.to_multiset().count(some[i]) > 0);
                    assert(rest.contains(some[i]));
                    let k = choose|k: int| 0 <= k < rest.len() && rest[k] == some[i];
                    assert(!text_less(list[list.len() - 1], list[k]));
                }
            }
        }
        assert(list =~= rest.push(list.last()));
        assert(more =~= some.push(list.last()));
        assert(more.to_multiset() =~= list.to_multiset().insert(text));
    }
}

/// Different characters have different code points.
proof fn lemma_code_points_differ(a: char, b: char)
    requires
        a != b,
    ensures
        a as u32 != b as u32,
{
}

/// What is less than a text is less than what is not less than that text.
proof fn lemma_less_or_not(a: Seq<char>, b: Seq<char>, c: Seq<char>)
    requires
        text_less(a, b),
        !text_less(c, b),
    ensures
        text_less(a, c),
    decreases a.len(),
{
    assert(b.len() > 0);
    assert(c.len() > 0);
    if a.len() > 0 {
        if a.first() == b.first() && c.first() == b.first() {
            lemma_less_or_not(a.drop_first(), b.drop_first(), c.drop_first());
        } else {
            assert((b.first() as u32) <= (c.first() as u32));
            assert((a.first() as u32) <= (b.first() as u32));
            lemma_code_points_differ(a.first(), c.first());
        }
    }
}

/// Of two texts at most one is less than the other.
proof fn lemma_less_one_way(a: Seq<char>, b: Seq<char>)
    requires
        text_less(a, b),
    ensures
        !text_less(b, a),
    decreases a.len(),
{
    if a.len() > 0 && b.len() > 0 && a.first() == b.first() {
        lemma_less_one_way(a.drop_first(), b.drop_first());
    }
}

/// The parameter `key` of the input is the text `text`.
pub open spec fn has_param(input: DocumentTree, key: Seq<char>, text: Seq<char>) -> bool {
    input matches DocumentTree::Object(params) && params.contains_key(key) && params[key]
        == DocumentTree::Text(text)
}

/// The input has a text for the parameter `key`.
pub open spec fn has_some_param(input: DocumentTree, key: Seq<char>) -> bool {
    input matches DocumentTree::Object(params) && params.contains_key(key) && params[key] is Text
}

/// What is said of an input that lacks the parameter `key`.
pub open spec fn lacking(input: DocumentTree, key: Seq<char>) -> Seq<char> {
    if input is Object {
        "missing or invalid parameter: "@ + key
    } else {
        "input is not an object"@
    }
}

/// Reading a file: where the file may be read it is the one that is asked for, and where
/// it may not, nothing is read.
pub proof fn law_file_that_is_asked_for_is_read(
    registry: RegistryView,
    input: DocumentTree,
    path: Seq<char>,
    cwd: CurrentDirView,
)
    requires
        has_param(input, "path"@, path),
    ensures
        planned(registry, "read_file"@, input, cwd) == if path_allowed(
            registry.permissions.fs_read,
            path,
            cwd,
        ) {
            Ok::<ToolActionView, Seq<char>>(ToolActionView::ReadFile { path })
        } else {
            Err::<ToolActionView, Seq<char>>("permission denied: read "@ + path)
        },
{
}

/// Writing a file: where the file may be written, it is the one that is asked for, with
/// the content that is given, character by character. Where it may not, nothing is
/// written, and neither is anything where no content is given.
pub proof fn law_content_is_written_whole(
    registry: RegistryView,
    input: DocumentTree,
    path: Seq<char>,
    content: Seq<char>,
    cwd: CurrentDirView,
)
    requires
        has_param(input, "path"@, path),
    ensures
        !path_allowed(registry.permissions.fs_write, path, cwd) ==> planned(
            registry,
            "write_file"@,
            input,
            cwd,
        ) == Err::<ToolActionView, Seq<char>>("permission denied: write "@ + path),
        path_allowed(registry.permissions.fs_write, path, cwd) && has_param(
            input,
            "content"@,
            content,
        ) ==> planned(registry, "write_file"@, input, cwd) == Ok::<ToolActionView, Seq<char>>(
            ToolActionView::WriteFile { path, content },
        ),
        path_allowed(registry.permissions.fs_write, path, cwd) && !has_some_param(
            input,
            "content"@,
        ) ==> planned(registry, "write_file"@, input, cwd) == Err::<ToolActionView, Seq<char>>(
            "missing or invalid parameter: content"@,
        ),
{
    lemma_tool_names_differ();
    lemma_named_params();
}

/// Running a command: where the command may run, it is the one that is asked for, whole,
/// and where it may not, nothing runs.
pub proof fn law_command_is_run_whole(
    registry: RegistryView,
    input: DocumentTree,
    command: Seq<char>,
    cwd: CurrentDirView,
)
    requires
        has_param(input, "command"@, command),
    ensures
        planned(registry, "run_command"@, input, cwd) == if command_allowed(
            registry.permissions,
            command,
        ) {
            Ok::<ToolActionView, Seq<char>>(ToolActionView::RunCommand { command })
        } else {
            Err::<ToolActionView, Seq<char>>("permission denied: command "@ + command)
        },
{
    lemma_tool_names_differ();
}

/// Listing files: where the directory may be read, it is the one that is asked for, the
/// empty path being the current directory; where it may not, nothing is listed.
pub proof fn law_directory_that_is_asked_for_is_listed(
    registry: RegistryView,
    input: DocumentTree,
    path: Seq<char>,
    cwd: CurrentDirView,
)
    requires
        has_param(input, "path"@, path),
    ensures
        planned(registry, "list_files"@, input, cwd) == if !path_allowed(
            registry.permissions.fs_read,
            path,
            cwd,
        ) {
            Err::<ToolActionView, Seq<char>>("permission denied: list "@ + path)
        } else if path.len() == 0 {
            Ok::<ToolActionView, Seq<char>>(ToolActionView::ListFiles { path: "."@ })
        } else {
            Ok::<ToolActionView, Seq<char>>(ToolActionView::ListFiles { path })
        },
{
    lemma_tool_names_differ();
}

/// A tool without the parameter that it needs does nothing. Before that is said, it is
/// asked whether the empty path, the empty command or, for listing, the current directory
/// is allowed.
pub proof fn law_tool_without_its_parameter_does_nothing(
    registry: RegistryView,
    input: DocumentTree,
    cwd: CurrentDirView,
)
    ensures
        !has_some_param(input, "path"@) ==> {
            &&& planned(registry, "read_file"@, input, cwd) == if path_allowed(
                registry.permissions.fs_read,
                Seq::empty(),
                cwd,
            ) {
                Err::<ToolActionView, Seq<char>>(lacking(input, "path"@))
            } else {
                Err::<ToolActionView, Seq<char>>("permission denied: read "@)
            }
            &&& planned(registry, "write_file"@, input, cwd) == if path_allowed(
                registry.permissions.fs_write,
                Seq::empty(),
                cwd,
            ) {
                Err::<ToolActionView, Seq<char>>(lacking(input, "path"@))
            } else {
                Err::<ToolActionView, Seq<char>>("permission denied: write "@)
            }
            &&& planned(registry, "list_files"@, input, cwd) == if path_allowed(
                registry.permissions.fs_read,
                "."@,
                cwd,
            ) {
                Err::<ToolActionView, Seq<char>>(lacking(input, "path"@))
            } else {
                Err::<ToolActionView, Seq<char>>("permission denied: list ."@)
            }
        },
        !has_some_param(input, "command"@) ==> planned(registry, "run_command"@, input, cwd)
            == if command_allowed(registry.permissions, Seq::empty()) {
            Err::<ToolActionView, Seq<char>>(lacking(input, "command"@))
        } else {
            Err::<ToolActionView, Seq<char>>("permission denied: command "@)
        },
{
    lemma_tool_names_differ();
    reveal_strlit("permission denied: list .");
    reveal_strlit("permission denied: list ");
    reveal_strlit(".");
    assert("permission denied: list "@ + "."@ =~= "permission denied: list ."@);
    assert("permission denied: read "@ + Seq::empty() =~= "permission denied: read "@);
    assert("permission denied: write "@ + Seq::empty() =~= "permission denied: write "@);
    assert("permission denied: command "@ + Seq::empty() =~= "permission denied: command "@);
}

/// A tool that is not one of the four is a plugin: the one of that name gets the whole
/// input as JSON, and where there is none the tool is unknown.
pub proof fn law_other_tools_are_plugins(
    registry: RegistryView,
    name: Seq<char>,
    input: DocumentTree,
    cwd: CurrentDirView,
)
    requires
        name != "read_file"@,
        name != "write_file"@,
        name != "run_command"@,
        name != "list_files"@,
    ensures
        match planned(registry, name, input, cwd) {
            Ok(ToolActionView::RunPlugin { index, input: text }) => {
                &&& 0 <= index < registry.wasm_tools.len()
                &&& registry.wasm_tools[index].name == name
                &&& text == json_write(json_of(input))
            },
            Ok(_) => false,
            Err(error) => {
                &&& forall|i: int|
                    0 <= i < registry.wasm_tools.len() ==> #[trigger] registry.wasm_tools[i].name
                        != name
                &&& error == "unknown tool: "@ + name
            },
        },
{
    lemma_find_plugin(registry.wasm_tools, name);
}

/// The four built-in tools have four different names.
proof fn lemma_tool_names_differ()
    ensures
        "read_file"@ != "write_file"@,
        "read_file"@ != "run_command"@,
        "read_file"@ != "list_files"@,
        "write_file"@ != "run_command"@,
        "write_file"@ != "list_files"@,
        "run_command"@ != "list_files"@,
{
    reveal_strlit("read_file");
    reveal_strlit("write_file");
    reveal_strlit("run_command");
    reveal_strlit("list_files");
    assert("read_file"@.len() == 9 && "write_file"@.len() == 10 && "run_command"@.len() == 11
        && "list_files"@.len() == 10);
    assert("write_file"@[0] == 'w' && "list_files"@[0] == 'l');
}

proof fn lemma_named_params()
    ensures
        "missing or invalid parameter: "@ + "content"@ == "missing or invalid parameter: content"@,
{
    reveal_strlit("missing or invalid parameter: ");
    reveal_strlit("content");
    reveal_strlit("missing or invalid parameter: content");
    assert("missing or invalid parameter: "@ + "content"@
        =~= "missing or invalid parameter: content"@);
}

/// The plugins are those that could be loaded: one that could not is left out, one of a
/// new name comes behind the others, and one of a name that is taken replaces that one.
pub proof fn law_plugins_are_loaded_one_by_one(
    loads: Seq<LoadedView>,
    load: LoadedView,
)
    ensures
        registered(Seq::empty()) == Seq::<WasmToolView>::empty(),
        ({
            let before = registered(loads);
            let after = registered(loads.push(load));
            match load.result {
                Err(_) => after == before,
                Ok(tool) => if exists|i: int|
                    0 <= i < before.len() && #[trigger] before[i].name == tool.name {
                    &&& after.len() == before.len()
                    &&& exists|i: int|
                        {
                            &&& 0 <= i < before.len()
                            &&& #[trigger] before[i].name == tool.name
                            &&& after[i] == tool
                            &&& forall|j: int|
                                0 <= j < before.len() && j != i ==> #[trigger] after[j]
                                    == before[j]
                        }
                } else {
                    &&& after.len() == before.len() + 1
                    &&& after.take(before.len() as int) == before
                    &&& after.last() == tool
                },
            }
        }),
{
    let before = registered(loads);
    let after = registered(loads.push(load));
    assert(loads.push(load).drop_last() =~= loads);
    if let Ok(tool) = load.result {
        lemma_find_plugin(before, tool.name);
        match find_plugin(before, tool.name) {
            Some(i) => {
                assert(before[i].name == tool.name);
            },
            None => {
                assert(after.take(before.len() as int) =~= before);
            },
        }
    }
}

/// What is logged of a plugin: its own name where it was loaded, else the name of the
/// configuration and the error.
pub proof fn law_loading_is_logged(load: LoadedView)
    ensures
        match load.result {
            Ok(tool) => load_log(load) == "[plugin] loaded: "@ + tool.name,
            Err(error) => load_log(load) == "[plugin] failed to load "@ + load.name + ": "@
                + error,
        },
{
}

/// The model is told of a plugin by its name and description, with its schema as a
/// document.
pub proof fn law_plugin_is_told_of(tool: WasmToolView)
    ensures
        plugin_spec(tool).name == tool.name,
        plugin_spec(tool).description == tool.description,
        plugin_spec(tool).input_schema == document_of(tool.schema),
{
}

/// A schema of an object with the properties, all of which are texts and must be given.
pub open spec fn needs_texts(schema: DocumentTree, params: Seq<Seq<char>>) -> bool {
    &&& schema matches DocumentTree::Object(fields)
    &&& fields.contains_key("type"@)
    &&& fields["type"@] == DocumentTree::Text("object"@)
    &&& fields.contains_key("required"@)
    &&& fields["required"@] matches DocumentTree::Array(required) && required.len() == params.len()
        && forall|i: int|
        0 <= i < params.len() ==> required[i] == DocumentTree::Text(#[trigger] params[i])
    &&& fields.contains_key("properties"@)
    &&& fields["properties"@] matches DocumentTree::Object(properties) && (forall|k: Seq<char>|
        properties.contains_key(k) <==> params.contains(k)) && forall|i: int|
        0 <= i < params.len() ==> is_text_property(properties[#[trigger] params[i]])
}

/// The property is a text.
pub open spec fn is_text_property(property: DocumentTree) -> bool {
    property matches DocumentTree::Object(fields) && fields.contains_key("type"@)
        && fields["type"@] == DocumentTree::Text("string"@)
}

/// The model is told of the four built-in tools, each with the parameters that it needs.
pub proof fn law_built_in_tools_are_told_of()
    ensures
        builtin_specs().len() == 4,
        builtin_specs()[0].name == "read_file"@,
        needs_texts(builtin_specs()[0].input_schema, seq!["path"@]),
        builtin_specs()[1].name == "write_file"@,
        needs_texts(builtin_specs()[1].input_schema, seq!["path"@, "content"@]),
        builtin_specs()[2].name == "run_command"@,
        needs_texts(builtin_specs()[2].input_schema, seq!["command"@]),
        builtin_specs()[3].name == "list_files"@,
        needs_texts(builtin_specs()[3].input_schema, seq!["path"@]),
{
    lemma_param_names_differ();
    lemma_one_or_two("path"@, "content"@);
    lemma_one_or_two("command"@, "content"@);
    lemma_needs_texts(
        map!["path"@ => described_text_tree("Path to the file to read"@)],
        seq!["path"@],
    );
    lemma_needs_texts(
        map![
            "path"@ => described_text_tree("Path to the file to write"@),
            "content"@ => described_text_tree("Content to write to the file"@),
        ],
        seq!["path"@, "content"@],
    );
    lemma_needs_texts(
        map!["command"@ => described_text_tree("Shell command to execute"@)],
        seq!["command"@],
    );
    lemma_needs_texts(
        map!["path"@ => described_text_tree("Directory path to list files in"@)],
        seq!["path"@],
    );
}

proof fn lemma_param_names_differ()
    ensures
        "path"@ != "content"@,
        "type"@ != "required"@,
        "type"@ != "properties"@,
        "required"@ != "properties"@,
        "type"@ != "description"@,
{
    reveal_strlit("path");
    reveal_strlit("content");
    reveal_strlit("type");
    reveal_strlit("required");
    reveal_strlit("properties");
    reveal_strlit("description");
    assert("path"@.len() == 4 && "content"@.len() == 7 && "type"@.len() == 4 && "required"@.len()
        == 8 && "properties"@.len() == 10 && "description"@.len() == 11);
}

proof fn lemma_one_or_two(a: Seq<char>, b: Seq<char>)
    ensures
        forall|k: Seq<char>| seq![a].contains(k) <==> k == a,
        forall|k: Seq<char>| seq![a, b].contains(k) <==> k == a || k == b,
{
    assert(seq![a][0] == a);
    assert(seq![a, b][0] == a && seq![a, b][1] == b);
}

proof fn lemma_needs_texts(properties: Map<Seq<char>, JsonTree>, params: Seq<Seq<char>>)
    requires
        forall|k: Seq<char>| #[trigger] properties.contains_key(k) <==> params.contains(k),
        forall|i: int|
            0 <= i < params.len() ==> exists|d: Seq<char>|
                properties[#[trigger] params[i]] == #[trigger] described_text_tree(d),
    ensures
        needs_texts(document_of(object_schema_tree(properties, params)), params),
{
    lemma_param_names_differ();
    let tree = object_schema_tree(properties, params);
    let fields = tree->Object_0;
    let schema = document_of(tree)->Object_0;
    assert(fields.contains_key("type"@) && fields.contains_key("required"@)
        && fields.contains_key("properties"@));
    assert(schema["type"@] == document_of(fields["type"@]));
    assert(schema["required"@] == document_of(fields["required"@]));
    assert(schema["properties"@] == document_of(fields["properties"@]));
    let required = schema["required"@]->Array_0;
    assert forall|i: int| 0 <= i < params.len() implies required[i] == DocumentTree::Text(
        #[trigger] params[i],
    ) by {
        assert(fields["required"@]->Array_0[i] == JsonTree::Text(params[i]));
        assert(required[i] == document_of(fields["required"@]->Array_0[i]));
    }
    let found = schema["properties"@]->Object_0;
    assert forall|k: Seq<char>| found.contains_key(k) <==> params.contains(k) by {
        assert(properties.contains_key(k) <==> params.contains(k));
    }
    assert forall|i: int| 0 <= i < params.len() implies is_text_property(
        found[#[trigger] params[i]],
    ) by {
        assert(params.contains(params[i]));
        assert(properties.contains_key(params[i]));
        let d = choose|d: Seq<char>| properties[params[i]] == #[trigger] described_text_tree(d);
        let inner = described_text_tree(d)->Object_0;
        assert(inner.contains_key("type"@));
        assert(found[params[i]] == document_of(properties[params[i]]));
        assert(document_of(described_text_tree(d))->Object_0["type"@] == document_of(
            inner["type"@],
        ));
    }
}

/// The result of a tool is what the tool gave, whole, under the ID of the request; an
/// error is marked as one, in the text too.
pub proof fn law_result_carries_what_the_tool_gave(
    tool_use_id: Seq<char>,
    output: String,
    error: String,
)
    ensures
        tool_result(tool_use_id, Ok(output)) == (ToolResultView {
            tool_use_id,
            text: output@,
            is_error: false,
        }),
        tool_result(tool_use_id, Err(error)) == (ToolResultView {
            tool_use_id,
            text: "Error: "@ + error@,
            is_error: true,
        }),
{
}

/// The report of a command has its code and all that it wrote, first to the standard
/// output and then to the standard error output; a command that a signal ended has the
/// code -1.
pub proof fn law_report_has_all_that_a_command_wrote(
    output: CommandOutput,
    stdout: Seq<char>,
    stderr: Seq<char>,
)
    requires
        output.stdout@ == encode_utf8(stdout),
        output.stderr@ == encode_utf8(stderr),
    ensures
        command_report(output) == "exit code: "@ + signed_decimal(
            match output.code {
                Some(code) => code as int,
                None => -1,
            },
        ) + "\n--- stdout ---\n"@ + stdout + "--- stderr ---\n"@ + stderr,
{
    law_utf8_is_shown_as_its_text(stdout);
    law_utf8_is_shown_as_its_text(stderr);
}

/// A listing has every file of the directory once, in order and on a line of its own; a
/// directory has a slash behind its name.
pub proof fn law_listing_has_every_file(entries: Seq<DirEntry>)
    ensures
        exists|listed: Seq<Seq<char>>|
            {
                &&& #[trigger] join(listed, seq!['\n']) == listing(entries)
                &&& in_order(listed)
                &&& listed.to_multiset() == Seq::new(
                    entries.len(),
                    |i: int|
                        if entries[i].is_dir {
                            entries[i].name@ + seq!['/']
                        } else {
                            entries[i].name@
                        },
                ).to_multiset()
            },
{
    reveal_strlit("\n");
    reveal_strlit("/");
    assert("\n"@ =~= seq!['\n']);
    assert("/"@ =~= seq!['/']);
    let names = entries.map_values(|e: DirEntry| listed_name(e));
    let plain = Seq::new(
        entries.len(),
        |i: int|
            if entries[i].is_dir {
                entries[i].name@ + seq!['/']
            } else {
                entries[i].name@
            },
    );
    assert(names =~= plain);
    law_sorting_orders(names);
    let listed = sorted_texts(names);
    assert(join(listed, seq!['\n']) == listing(entries));
}

/// The report of a command shows what it wrote, whatever the bytes are.
pub proof fn law_report_shows_both_outputs(output: CommandOutput)
    ensures
        command_report(output) == "exit code: "@ + signed_decimal(
            match output.code {
                Some(code) => code as int,
                None => -1,
            },
        ) + "\n--- stdout ---\n"@ + shown_text(output.stdout@) + "--- stderr ---\n"@ + shown_text(
            output.stderr@,
        ),
{
}

/// What a tool has to do is taken as it is, and so is why it does nothing.
pub proof fn law_action_is_taken_as_it_is(action: ToolAction, error: String)
    ensures
        action_view(Ok(action)) == Ok::<ToolActionView, Seq<char>>(action@),
        action_view(Err(error)) == Err::<ToolActionView, Seq<char>>(error@),
{
}

}
