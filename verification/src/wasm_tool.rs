//! Plugins: tools that come as WebAssembly modules.
use vstd::prelude::*;

use crate::config::{ToolConfigView, WasmToolConfig};
use crate::json::{
    empty_object, field, get, get_text, json_parse, parse_json, text_field, text_json, with_entry,
    Json, JsonTree,
};
use crate::path::{join_path, joined_path};
use crate::text::copy_maybe;

verus! {

/// A plugin, as the model is told of it.
pub struct WasmTool {
    pub name: String,
    pub description: String,
    pub schema: Json,
    pub config: WasmToolConfig,
}

pub struct WasmToolView {
    pub name: Seq<char>,
    pub description: Seq<char>,
    pub schema: JsonTree,
    pub config: ToolConfigView,
}

impl View for WasmTool {
    type V = WasmToolView;

    open spec fn view(&self) -> WasmToolView {
        WasmToolView {
            name: self.name@,
            description: self.description@,
            schema: self.schema.tree(),
            config: self.config@,
        }
    }
}

/// The schema of a plugin that names none: any object.
pub open spec fn any_object_schema() -> JsonTree {
    JsonTree::Object(
        map![
            "type"@ => JsonTree::Text("object"@),
            "properties"@ => JsonTree::Object(Map::empty()),
        ],
    )
}

/// The name of a plugin: that of its manifest, or else that of the
/// configuration.
pub open spec fn tool_name(config: ToolConfigView, manifest: JsonTree) -> Seq<char> {
    match text_field(manifest, "name"@) {
        Some(name) => name,
        None => config.name,
    }
}

/// A plugin by its configuration and its manifest. The description of the
/// configuration counts before that of the manifest.
pub open spec fn described_tool(config: ToolConfigView, manifest: JsonTree) -> WasmToolView {
    let name = tool_name(config, manifest);
    WasmToolView {
        name,
        description: match (config.description, text_field(manifest, "description"@)) {
            (Some(description), _) => description,
            (None, Some(description)) => description,
            (None, None) => "WASM tool: "@ + name,
        },
        schema: match field(manifest, "input_schema"@) {
            Some(schema) => schema,
            None => any_object_schema(),
        },
        config,
    }
}

/// A plugin by its configuration and the text of its manifest.
pub open spec fn loaded_tool(config: ToolConfigView, manifest: Seq<char>) -> Result<
    WasmToolView,
    Seq<char>,
> {
    match json_parse(manifest) {
        Ok(manifest) => Ok(described_tool(config, manifest)),
        Err(error) => Err("tool_manifest returned invalid JSON: "@ + error),
    }
}

impl WasmTool {
    /// A plugin by its configuration and the text of its manifest.
    pub fn load(config: &WasmToolConfig, manifest: &str) -> (tool: Result<WasmTool, String>)
        ensures
            match tool {
                Ok(tool) => loaded_tool(config@, manifest@) == Ok::<WasmToolView, Seq<char>>(
                    tool@,
                ),
                Err(message) => loaded_tool(config@, manifest@) == Err::<WasmToolView, Seq<char>>(
                    message@,
                ),
            },
    {
        match parse_json(manifest) {
            Ok(manifest) => Ok(WasmTool::described(config, &manifest)),
            Err(error) => {
                let mut message = "tool_manifest returned invalid JSON: ".to_string();
                message.append(error.as_str());
                Err(message)
            },
        }
    }

    /// A plugin by its configuration and its manifest.
    pub fn described(config: &WasmToolConfig, manifest: &Json) -> (tool: WasmTool)
        ensures
            tool@ == described_tool(config@, manifest.tree()),
    {
        let name = match get_text(manifest, "name") {
            Some(name) => name.to_string(),
            None => config.name.clone(),
        };
        let description = match copy_maybe(&config.description) {
            Some(description) => description,
            None => match get_text(manifest, "description") {
                Some(description) => description.to_string(),
                None => {
                    let mut description = "WASM tool: ".to_string();
                    description.append(name.as_str());
                    description
                },
            },
        };
        let schema = match get(manifest, "input_schema") {
            Some(schema) => schema.clone(),
            None => {
                let schema = with_entry(
                    with_entry(empty_object(), "type", text_json("object")),
                    "properties",
                    empty_object(),
                );
                assert(schema.tree()->Object_0 =~= any_object_schema()->Object_0);
                schema
            },
        };
        WasmTool { name, description, schema, config: config.clone() }
    }
}

/// Where the module of a plugin is.
pub fn resolve_wasm_path(wasm: &str, base_dir: &str) -> (path: String)
    ensures
        path@ == joined_path(base_dir@, wasm@),
{
    join_path(base_dir, wasm)
}

/// What is said of a module that cannot be loaded.
pub fn load_error(path: &str, cause: &str) -> (message: String)
    ensures
        message@ == "failed to load WASM: "@ + path@ + ": "@ + cause@,
{
    let mut message = "failed to load WASM: ".to_string();
    message.append(path);
    message.append(": ");
    message.append(cause);
    message
}

/// What a plugin must export.
#[derive(Debug, Clone, Copy, PartialEq, Eq, Structural)]
pub enum Export {
    Manifest,
    Alloc,
    Execute,
}

pub open spec fn export_signature(export: Export) -> Seq<char> {
    match export {
        Export::Manifest => "tool_manifest() -> i32"@,
        Export::Alloc => "alloc_mem(i32) -> i32"@,
        Export::Execute => "execute(i32, i32) -> i32"@,
    }
}

/// What is said of a module that lacks an export.
pub fn export_error(export: Export, cause: &str) -> (message: String)
    ensures
        message@ == "WASM must export `"@ + export_signature(export) + "`: "@ + cause@,
{
    let mut message = "WASM must export `".to_string();
    message.append(
        match export {
            Export::Manifest => "tool_manifest() -> i32",
            Export::Alloc => "alloc_mem(i32) -> i32",
            Export::Execute => "execute(i32, i32) -> i32",
        },
    );
    message.append("`: ");
    message.append(cause);
    message
}

/// What the configuration says of a plugin counts before what its manifest says,
/// but the manifest names it.
pub proof fn law_configured_description_counts(
    config: ToolConfigView,
    manifest: JsonTree,
    other: JsonTree,
)
    requires
        config.description is Some,
    ensures
        described_tool(config, manifest).description == described_tool(config, other).description,
        Some(described_tool(config, manifest).description) == config.description,
{
}

/// A plugin has the name of its manifest, or else that of the configuration; the
/// description of the configuration, or else that of the manifest, or else one made of its
/// name; the schema of its manifest, or else one of any object; and its configuration.
pub proof fn law_plugin_is_what_its_manifest_says(
    config: ToolConfigView,
    fields: Map<Seq<char>, JsonTree>,
)
    ensures
        ({
            let tool = described_tool(config, JsonTree::Object(fields));
            &&& tool.config == config
            &&& if fields.contains_key("name"@) && fields["name"@] is Text {
                fields["name"@] == JsonTree::Text(tool.name)
            } else {
                tool.name == config.name
            }
            &&& match config.description {
                Some(description) => tool.description == description,
                None => if fields.contains_key("description"@) && fields["description"@] is Text {
                    fields["description"@] == JsonTree::Text(tool.description)
                } else {
                    tool.description == "WASM tool: "@ + tool.name
                },
            }
            &&& if fields.contains_key("input_schema"@) {
                tool.schema == fields["input_schema"@]
            } else {
                tool.schema == JsonTree::Object(
                    map![
                        "type"@ => JsonTree::Text("object"@),
                        "properties"@ => JsonTree::Object(Map::empty()),
                    ],
                )
            }
        }),
{
}

/// A manifest that is no JSON is refused with the cause; one that is describes the plugin.
pub proof fn law_manifest_must_be_json(config: ToolConfigView, manifest: Seq<char>)
    ensures
        match json_parse(manifest) {
            Ok(tree) => loaded_tool(config, manifest) == Ok::<WasmToolView, Seq<char>>(
                described_tool(config, tree),
            ),
            Err(error) => loaded_tool(config, manifest) == Err::<WasmToolView, Seq<char>>(
                "tool_manifest returned invalid JSON: "@ + error,
            ),
        },
{
}

/// What a plugin must export is named with its signature.
pub proof fn law_exports_are_named()
    ensures
        export_signature(Export::Manifest) == "tool_manifest() -> i32"@,
        export_signature(Export::Alloc) == "alloc_mem(i32) -> i32"@,
        export_signature(Export::Execute) == "execute(i32, i32) -> i32"@,
{
}

/// A manifest that is no object says nothing: the plugin is what its configuration says.
pub proof fn law_empty_manifest_leaves_the_configuration(
    config: ToolConfigView,
    manifest: JsonTree,
)
    requires
        !(manifest is Object),
    ensures
        described_tool(config, manifest) == described_tool(
            config,
            JsonTree::Object(Map::empty()),
        ),
        described_tool(config, manifest).name == config.name,
{
}

}
