use asobi::config::{Permissions, WasmPermissions, WasmToolConfig};
use asobi::document::{document_to_json_string, Document};
use asobi::json::{json_to_string, parse_json};
use asobi::path::CurrentDir;
use asobi::plugin::read_wasm_string;
use asobi::tools::{
    build_tool_result, builtin_definitions, exec_list_files, exec_read_file, exec_run_command,
    exec_write_file, CommandOutput, DirEntry, FileError, ListError, Loaded, ToolAction,
    ToolRegistry,
};
use asobi::wasm_tool::{export_error, load_error, resolve_wasm_path, Export, WasmTool};

fn make_input(pairs: &[(&str, &str)]) -> Document {
    Document::Object(
        pairs
            .iter()
            .map(|(k, v)| (k.to_string(), Document::String(v.to_string())))
            .collect(),
    )
}

fn registry_with(permissions: Permissions) -> ToolRegistry {
    ToolRegistry::new(vec![], permissions).0
}

fn config(name: &str, description: Option<&str>) -> WasmToolConfig {
    WasmToolConfig {
        name: name.to_string(),
        wasm: "x.wasm".to_string(),
        description: description.map(|d| d.to_string()),
        permissions: WasmPermissions::default(),
    }
}

fn plugin(name: &str, description: &str) -> WasmTool {
    WasmTool::load(&config(name, Some(description)), "{}").unwrap()
}

#[test]
fn test_builtin_definitions_count() {
    assert_eq!(builtin_definitions().len(), 4);
}

#[test]
fn test_registry_definitions_include_builtins() {
    let registry = registry_with(Permissions::default());
    let defs = registry.tool_definitions();
    assert!(defs.len() >= 4);
}

#[test]
fn test_registry_execute_unknown() {
    let registry = registry_with(Permissions::default());
    let input = Document::Object(vec![]);
    let action = registry.execute_tool("nonexistent", &input);
    let error = action.err().unwrap();
    assert_eq!(error, "unknown tool: nonexistent");
    let result = build_tool_result("id-1", Err(error));
    assert!(result.is_error);
    assert_eq!(result.text, "Error: unknown tool: nonexistent");
    assert_eq!(result.tool_use_id, "id-1");
}

#[test]
fn test_read_file() {
    let registry = registry_with(Permissions::default());
    let input = make_input(&[("path", "/tmp/asobi_test_read/test.txt")]);
    let action = registry.execute_tool("read_file", &input);
    assert!(matches!(action, Ok(ToolAction::ReadFile { path }) if path == "/tmp/asobi_test_read/test.txt"));
    let result = exec_read_file("/tmp/asobi_test_read/test.txt", Ok("hello world".to_string()));
    assert_eq!(result.unwrap(), "hello world");
    let failed = exec_read_file("/a", Err("gone".to_string()));
    assert_eq!(failed.unwrap_err(), "failed to read /a: gone");
}

#[test]
fn test_write_file() {
    let registry = registry_with(Permissions::default());
    let input = make_input(&[("path", "/tmp/asobi_test_write/out.txt"), ("content", "test data")]);
    let action = registry.execute_tool("write_file", &input);
    assert!(matches!(action, Ok(ToolAction::WriteFile { path, content }) if path == "/tmp/asobi_test_write/out.txt" && content == "test data"));
    let result = exec_write_file("/tmp/asobi_test_write/out.txt", Ok(())).unwrap();
    assert!(result.contains("Written to"));
    assert_eq!(result, "Written to /tmp/asobi_test_write/out.txt");
    let failed = exec_write_file("/a", Err(FileError::Write("full".to_string())));
    assert_eq!(failed.unwrap_err(), "failed to write /a: full");
    let failed = exec_write_file("/a", Err(FileError::CreateDir("denied".to_string())));
    assert_eq!(failed.unwrap_err(), "denied");
}

#[test]
fn test_run_command() {
    let registry = registry_with(Permissions::default());
    let input = make_input(&[("command", "echo hello")]);
    let action = registry.execute_tool("run_command", &input);
    assert!(matches!(action, Ok(ToolAction::RunCommand { command }) if command == "echo hello"));
    let output = CommandOutput { code: Some(0), stdout: b"hello\n".to_vec(), stderr: vec![] };
    let result = exec_run_command("echo hello", Ok(output)).unwrap();
    assert!(result.contains("exit code: 0"));
    assert!(result.contains("hello"));
    assert_eq!(result, "exit code: 0\n--- stdout ---\nhello\n--- stderr ---\n");
}

#[test]
fn test_list_files() {
    let registry = registry_with(Permissions::default());
    let input = make_input(&[("path", "/tmp/asobi_test_list")]);
    let action = registry.execute_tool("list_files", &input);
    assert!(matches!(action, Ok(ToolAction::ListFiles { path }) if path == "/tmp/asobi_test_list"));
    let entries = vec![
        DirEntry { name: "b.txt".to_string(), is_dir: false },
        DirEntry { name: "a.txt".to_string(), is_dir: false },
    ];
    let result = exec_list_files("/tmp/asobi_test_list", Ok(entries)).unwrap();
    assert!(result.contains("a.txt"));
    assert!(result.contains("b.txt"));
    assert_eq!(result, "a.txt\nb.txt");
}

#[test]
fn commands_that_fail_are_told() {
    let output = CommandOutput { code: None, stdout: vec![0xff, b'x'], stderr: b"no".to_vec() };
    let result = exec_run_command("c", Ok(output)).unwrap();
    assert_eq!(result, "exit code: -1\n--- stdout ---\n\u{fffd}x--- stderr ---\nno");
    let failed = exec_run_command("c", Err("no sh".to_string()));
    assert_eq!(failed.unwrap_err(), "failed to execute: c: no sh");
    let output = CommandOutput { code: Some(i32::MIN), stdout: vec![], stderr: vec![] };
    assert!(exec_run_command("c", Ok(output)).unwrap().starts_with("exit code: -2147483648\n"));
}

#[test]
fn listings_are_sorted() {
    let names = ["b", "B", "é", "a", "b", "", "ab"];
    let entries = names
        .iter()
        .map(|n| DirEntry { name: n.to_string(), is_dir: *n == "a" })
        .collect();
    let result = exec_list_files(".", Ok(entries)).unwrap();
    let mut expected: Vec<String> = names
        .iter()
        .map(|n| if *n == "a" { "a/".to_string() } else { n.to_string() })
        .collect();
    expected.sort();
    assert_eq!(result, expected.join("\n"));
    assert_eq!(result, "\nB\na/\nab\nb\nb\né");
    assert_eq!(exec_list_files(".", Ok(vec![])).unwrap(), "");
    let failed = exec_list_files("d", Err(ListError::Open("gone".to_string())));
    assert_eq!(failed.unwrap_err(), "failed to read directory d: gone");
    let failed = exec_list_files("d", Err(ListError::Entry("odd".to_string())));
    assert_eq!(failed.unwrap_err(), "odd");
}

#[test]
fn permissions_are_kept_to() {
    let list = |items: &[&str]| Some(items.iter().map(|s| s.to_string()).collect());
    let registry = registry_with(Permissions::given(
        list(&["/r"]),
        list(&["/w"]),
        list(&["ls"]),
        list(&["-R"]),
    ));
    let denied = |name: &str, pairs: &[(&str, &str)]| {
        registry.execute_tool(name, &make_input(pairs)).err().unwrap()
    };
    assert_eq!(denied("read_file", &[("path", "/w/x")]), "permission denied: read /w/x");
    assert_eq!(denied("write_file", &[("path", "/r/x")]), "permission denied: write /r/x");
    assert_eq!(denied("list_files", &[("path", "/")]), "permission denied: list /");
    assert_eq!(denied("list_files", &[]), "permission denied: list .");
    assert_eq!(denied("run_command", &[("command", "ls -R")]), "permission denied: command ls -R");
    assert_eq!(denied("run_command", &[("command", "rm x")]), "permission denied: command rm x");
    assert_eq!(denied("read_file", &[]), "permission denied: read ");
    assert!(registry.execute_tool("read_file", &make_input(&[("path", "/r/x")])).is_ok());
    assert!(registry.execute_tool("run_command", &make_input(&[("command", "ls")])).is_ok());
}

#[test]
fn parameters_that_are_missing_are_told() {
    let registry = registry_with(Permissions::default());
    let error = |name: &str, input: &Document| registry.execute_tool(name, input).err().unwrap();
    let empty = make_input(&[]);
    assert_eq!(error("read_file", &empty), "missing or invalid parameter: path");
    assert_eq!(error("write_file", &make_input(&[("path", "p")])), "missing or invalid parameter: content");
    assert_eq!(error("write_file", &make_input(&[("content", "c")])), "missing or invalid parameter: path");
    assert_eq!(error("run_command", &empty), "missing or invalid parameter: command");
    assert_eq!(error("list_files", &empty), "missing or invalid parameter: path");
    assert_eq!(error("read_file", &Document::Null), "input is not an object");
    let here = registry.execute_tool("list_files", &make_input(&[("path", "")]));
    assert!(matches!(here, Ok(ToolAction::ListFiles { path }) if path == "."));
}

#[test]
fn relative_paths_are_seen_from_the_given_directory() {
    let registry = registry_with(Permissions::given(
        Some(vec!["/work".to_string()]),
        None,
        None,
        None,
    ));
    let input = make_input(&[("path", "notes")]);
    let inside = registry.execute_tool_from("read_file", &input, &CurrentDir::Text("/work".to_string()));
    assert!(inside.is_ok());
    let outside = registry.execute_tool_from("read_file", &input, &CurrentDir::Text("/home".to_string()));
    assert_eq!(outside.err().unwrap(), "permission denied: read notes");
}

#[test]
fn builtin_tools_are_described() {
    let defs = builtin_definitions();
    let names: Vec<&str> = defs.iter().map(|d| d.name.as_str()).collect();
    assert_eq!(names, vec!["read_file", "write_file", "run_command", "list_files"]);
    assert_eq!(defs[0].description, "Read the contents of a file");
    assert_eq!(
        document_to_json_string(&defs[0].input_schema),
        r#"{"properties":{"path":{"description":"Path to the file to read","type":"string"}},"required":["path"],"type":"object"}"#
    );
    assert_eq!(
        document_to_json_string(&defs[1].input_schema),
        r#"{"properties":{"content":{"description":"Content to write to the file","type":"string"},"path":{"description":"Path to the file to write","type":"string"}},"required":["path","content"],"type":"object"}"#
    );
    assert_eq!(defs[2].description, "Execute a shell command and return its stdout and stderr");
    assert!(document_to_json_string(&defs[2].input_schema).contains("Shell command to execute"));
    assert!(document_to_json_string(&defs[3].input_schema).contains("Directory path to list files in"));
}

#[test]
fn plugins_are_registered_by_name() {
    let loads = vec![
        Loaded { name: "a".to_string(), result: Ok(plugin("a", "first")) },
        Loaded { name: "b".to_string(), result: Err("no file".to_string()) },
        Loaded { name: "c".to_string(), result: Ok(plugin("c", "other")) },
        Loaded { name: "a".to_string(), result: Ok(plugin("a", "second")) },
    ];
    let (registry, log) = ToolRegistry::new(loads, Permissions::default());
    assert_eq!(
        log,
        vec![
            "[plugin] loaded: a",
            "[plugin] failed to load b: no file",
            "[plugin] loaded: c",
            "[plugin] loaded: a",
        ]
    );
    assert_eq!(registry.wasm_tools.len(), 2);
    assert_eq!(registry.find("a"), Some(0));
    assert_eq!(registry.find("b"), None);
    let defs = registry.tool_definitions();
    assert_eq!(defs.len(), 6);
    assert_eq!(defs[4].description, "second");
    assert_eq!(document_to_json_string(&defs[5].input_schema), r#"{"properties":{},"type":"object"}"#);
    let input = make_input(&[("k", "v")]);
    let action = registry.execute_tool("c", &input);
    assert!(matches!(action, Ok(ToolAction::RunPlugin { index: 1, input }) if input == "{\"k\":\"v\"}"));
}

#[test]
fn manifest_describes_a_plugin() {
    let manifest = r#"{"name":"real","description":"does it","input_schema":{"type":"object"}}"#;
    let tool = WasmTool::load(&config("given", None), manifest).unwrap();
    assert_eq!(tool.name, "real");
    assert_eq!(tool.description, "does it");
    assert_eq!(json_to_string(&tool.schema), r#"{"type":"object"}"#);
    assert_eq!(tool.config.name, "given");
    let tool = WasmTool::load(&config("given", Some("mine")), manifest).unwrap();
    assert_eq!(tool.description, "mine");
    let tool = WasmTool::described(&config("given", None), &parse_json("[]").unwrap());
    assert_eq!(tool.name, "given");
    assert_eq!(tool.description, "WASM tool: given");
    assert_eq!(json_to_string(&tool.schema), r#"{"properties":{},"type":"object"}"#);
    let error = WasmTool::load(&config("given", None), "{").err().unwrap();
    assert!(error.starts_with("tool_manifest returned invalid JSON: EOF while parsing"));
}

#[test]
fn test_resolve_wasm_path_absolute() {
    let result = resolve_wasm_path("/opt/plugins/tool.wasm", "/home/user/.asobi");
    assert_eq!(result, "/opt/plugins/tool.wasm");
}

#[test]
fn test_resolve_wasm_path_relative() {
    let result = resolve_wasm_path("plugins/tool.wasm", "/home/user/.asobi");
    assert_eq!(result, "/home/user/.asobi/plugins/tool.wasm");
}

#[test]
fn modules_that_do_not_fit_are_told() {
    assert_eq!(load_error("/p.wasm", "gone"), "failed to load WASM: /p.wasm: gone");
    assert_eq!(export_error(Export::Manifest, "x"), "WASM must export `tool_manifest() -> i32`: x");
    assert_eq!(export_error(Export::Alloc, "x"), "WASM must export `alloc_mem(i32) -> i32`: x");
    assert_eq!(export_error(Export::Execute, "x"), "WASM must export `execute(i32, i32) -> i32`: x");
}

#[test]
fn strings_are_read_from_the_memory_of_a_plugin() {
    let mut data = vec![0u8; 32];
    data[4] = 20;
    data[8] = 3;
    data[20..23].copy_from_slice("a\u{e9}".as_bytes());
    assert_eq!(read_wasm_string(&data, 4).unwrap(), "a\u{e9}");
    assert_eq!(read_wasm_string(&data, 25).unwrap_err(), "string pointer out of bounds");
    assert_eq!(read_wasm_string(&data, -100).unwrap_err(), "string pointer out of bounds");
    data[8] = 200;
    assert_eq!(read_wasm_string(&data, 4).unwrap_err(), "string data out of bounds");
    data[8] = 2;
    assert!(read_wasm_string(&data, 4).unwrap_err().starts_with("WASM returned invalid UTF-8: "));
    data[8] = 0;
    assert_eq!(read_wasm_string(&data, 4).unwrap(), "");
}

#[test]
fn results_of_tools_are_told_apart() {
    let good = build_tool_result("1", Ok("out".to_string()));
    assert_eq!((good.text.as_str(), good.is_error), ("out", false));
    let bad = build_tool_result("2", Err("out".to_string()));
    assert_eq!((bad.text.as_str(), bad.is_error), ("Error: out", true));
    assert_eq!(bad.tool_use_id, "2");
}
