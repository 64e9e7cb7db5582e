use asobi::config::{
    config_dir, config_path, load, load_local, load_merged, merge_configs, merge_tools, Config,
    Permissions, ProviderConfig, WasmPermissions, WasmToolConfig,
};
use asobi::path::CurrentDir;

fn list(items: &[&str]) -> Vec<String> {
    items.iter().map(|s| s.to_string()).collect()
}

fn table_of(text: &str) -> toml::Table {
    toml::from_str::<toml::Table>(text).unwrap()
}

fn text_at(table: &toml::Table, key: &str) -> Option<String> {
    table.get(key).and_then(|v| v.as_str()).map(|s| s.to_string())
}

fn list_at(table: &toml::Table, key: &str) -> Option<Vec<String>> {
    table.get(key).and_then(|v| v.as_array()).map(|items| {
        items.iter().map(|i| i.as_str().unwrap().to_string()).collect()
    })
}

fn config_of(text: &str) -> Config {
    let table = table_of(text);
    let permissions = match table.get("permissions").and_then(|v| v.as_table()) {
        Some(p) => Permissions::given(
            list_at(p, "fs_read"),
            list_at(p, "fs_write"),
            list_at(p, "allowed_commands"),
            list_at(p, "denied_commands"),
        ),
        None => Permissions::default(),
    };
    let mut tools = Vec::new();
    if let Some(items) = table.get("tools").and_then(|v| v.as_array()) {
        for item in items {
            let t = item.as_table().unwrap();
            let permissions = match t.get("permissions").and_then(|v| v.as_table()) {
                Some(p) => WasmPermissions {
                    mounts: list_at(p, "mounts").unwrap_or_default(),
                    env: list_at(p, "env").unwrap_or_default(),
                },
                None => WasmPermissions::default(),
            };
            tools.push(WasmToolConfig {
                name: text_at(t, "name").unwrap(),
                wasm: text_at(t, "wasm").unwrap(),
                description: text_at(t, "description"),
                permissions,
            });
        }
    }
    Config {
        model: text_at(&table, "model"),
        region: text_at(&table, "region"),
        system_prompt: text_at(&table, "system_prompt"),
        provider: table
            .get("provider")
            .and_then(|v| v.as_table())
            .map(|p| ProviderConfig { name: text_at(p, "name") }),
        permissions,
        tools,
    }
}

#[test]
fn configuration_is_read_whole() {
    let toml = r#"
model = "amazon.nova-pro-v1:0"
region = "us-west-2"
system_prompt = "You are a Rust expert."

[provider]
name = "bedrock"

[permissions]
fs_read = ["/home", "/tmp"]
fs_write = ["."]
"#;
    let config: Config = config_of(toml);
    assert_eq!(config.model.as_deref(), Some("amazon.nova-pro-v1:0"));
    assert_eq!(config.permissions.fs_read, vec!["/home", "/tmp"]);
    assert_eq!(config.permissions.fs_write, vec!["."]);
    assert_eq!(config.permissions.allowed_commands, vec!["*"]);
    assert!(config.permissions.denied_commands.is_empty());
}

#[test]
fn test_default_permissions() {
    let config: Config = config_of("");
    assert_eq!(config.permissions.fs_read, vec!["/"]);
    assert_eq!(config.permissions.fs_write, vec!["/"]);
    assert_eq!(config.permissions.allowed_commands, vec!["*"]);
}

#[test]
fn test_intersect_restricts() {
    let global = Permissions {
        fs_read: vec!["/".to_string()],
        fs_write: vec!["/home".to_string()],
        allowed_commands: vec!["*".to_string()],
        denied_commands: vec![],
    };
    let local = Permissions {
        fs_read: vec![".".to_string()],
        fs_write: vec![".".to_string()],
        allowed_commands: vec!["*".to_string()],
        denied_commands: vec!["rm -rf".to_string()],
    };
    let merged = global.intersect(&local);
    assert_eq!(merged.fs_read, vec!["."]);
    assert!(merged.denied_commands.contains(&"rm -rf".to_string()));
}

#[test]
fn test_is_command_allowed() {
    let perms = Permissions {
        fs_read: vec!["/".to_string()],
        fs_write: vec!["/".to_string()],
        allowed_commands: vec!["*".to_string()],
        denied_commands: vec!["rm -rf /".to_string()],
    };
    assert!(perms.is_command_allowed("ls -la"));
    assert!(!perms.is_command_allowed("rm -rf /"));
}

#[test]
fn test_is_path_readable() {
    let perms = Permissions {
        fs_read: vec!["/tmp".to_string()],
        fs_write: vec![],
        allowed_commands: vec![],
        denied_commands: vec![],
    };
    assert!(perms.is_path_readable("/tmp/foo.txt"));
    assert!(!perms.is_path_readable("/etc/passwd"));
}

#[test]
fn test_parse_wasm_tools() {
    let toml = r#"
[[tools]]
name = "search_code"
wasm = "plugins/search_code.wasm"
description = "Search code"

[tools.permissions]
mounts = [".:.:ro", "/tmp:/tmp"]
env = ["PATH"]
"#;
    let config: Config = config_of(toml);
    assert_eq!(config.tools.len(), 1);
    assert_eq!(config.tools[0].permissions.mounts, vec![".:.:ro", "/tmp:/tmp"]);
    let resolved = config.tools[0].permissions.resolved_mounts();
    assert_eq!(resolved.len(), 2);
    assert!(!resolved[0].writable);
    assert!(resolved[1].writable);
}

#[test]
fn test_load_missing_file() {
    let dir = config_dir(&Some("/nonexistent/xdg/path".to_string()), &None);
    let config = load(&dir, None).unwrap();
    assert!(config.model.is_none());
}

#[test]
fn places_are_compared_name_by_name() {
    let perms = Permissions::given(Some(list(&["/tmp/a"])), Some(list(&[])), None, None);
    assert!(perms.is_path_readable("/tmp/a"));
    assert!(perms.is_path_readable("/tmp/a/"));
    assert!(perms.is_path_readable("/tmp//a/./b"));
    assert!(!perms.is_path_readable("/tmp/ab"));
    assert!(!perms.is_path_readable("/tmp"));
    assert!(perms.is_path_readable("/tmp/a/../b"));
    assert!(!perms.is_path_writable("/tmp/a"));
}

#[test]
fn relative_places_are_seen_from_the_current_directory() {
    let cwd = CurrentDir::Text("/work/here".to_string());
    let perms = Permissions::given(Some(list(&["."])), Some(list(&["/work"])), None, None);
    assert!(perms.is_path_readable_from("src/main.rs", &cwd));
    assert!(perms.is_path_readable_from("./src/main.rs", &cwd));
    assert!(perms.is_path_readable_from("/work/here/x", &cwd));
    assert!(!perms.is_path_readable_from("/work/there", &cwd));
    assert!(perms.is_path_writable_from("x", &cwd));
    assert!(!perms.is_path_readable_from("", &cwd));
    assert!(perms.is_path_readable_from("./x", &CurrentDir::Unknown));
    assert!(!perms.is_path_readable_from("x", &CurrentDir::Unknown));
}

#[test]
fn directory_that_is_no_text_is_like_no_text() {
    let cwd = CurrentDir::Bytes(b"/work/caf\xe9/./in".to_vec());
    let lossy = Permissions::given(Some(list(&["/work/caf\u{fffd}/in"])), None, None, None);
    assert!(!lossy.is_path_readable_from("x", &cwd));
    assert!(lossy.is_path_readable_from("/work/caf\u{fffd}/in/x", &cwd));
    let latin = Permissions::given(Some(list(&["/work/caf\u{e9}/in"])), None, None, None);
    assert!(!latin.is_path_readable_from("x", &cwd));
    let here = Permissions::given(Some(list(&["."])), Some(list(&["/work"])), None, None);
    assert!(here.is_path_readable_from("x", &cwd));
    assert!(here.is_path_readable_from("./a/b", &cwd));
    assert!(!here.is_path_readable_from("/work/x", &cwd));
    assert!(!here.is_path_readable_from("", &cwd));
    assert!(here.is_path_writable_from("x", &cwd));
    assert!(!here.is_path_writable_from("/home", &cwd));
}

#[test]
fn tools_of_a_directory_that_is_no_text_are_placed_by_its_shown_name() {
    let local = Config {
        tools: vec![tool("t", "t.wasm")],
        ..Config::default()
    };
    let cwd = CurrentDir::Bytes(b"/caf\xe9".to_vec());
    let (_, _, tools) = merge_configs(Config::default(), Some(local), &cwd);
    assert_eq!(tools[0].wasm, "/caf\u{fffd}/t.wasm");
}

#[test]
fn current_directory_holds_relative_paths() {
    let perms = Permissions::given(Some(list(&["."])), Some(list(&["nowhere"])), None, None);
    assert!(perms.is_path_readable("some/file"));
    assert!(!perms.is_path_readable("/"));
    assert!(perms.is_path_writable("nowhere/file"));
    assert!(!perms.is_path_writable("some/file"));
}

#[test]
fn denied_commands_count_first() {
    let perms = Permissions::given(
        None,
        None,
        Some(list(&["ls", "git"])),
        Some(list(&["push"])),
    );
    assert!(perms.is_command_allowed("ls -la"));
    assert!(perms.is_command_allowed("  git\tstatus"));
    assert!(!perms.is_command_allowed("git push"));
    assert!(!perms.is_command_allowed("lsx"));
    assert!(!perms.is_command_allowed(""));
    let empty = Permissions::given(None, None, None, Some(list(&[""])));
    assert!(!empty.is_command_allowed("ls"));
}

#[test]
fn merged_places_lie_in_both() {
    let cwd = CurrentDir::Text("/home/me".to_string());
    let global = Permissions::given(Some(list(&["/home"])), Some(list(&["/tmp"])), None, None);
    let local = Permissions::given(
        Some(list(&[".", "/etc", "/home/you"])),
        Some(list(&["/"])),
        None,
        None,
    );
    let merged = global.intersect_from(&local, &cwd);
    assert_eq!(merged.fs_read, vec![".", "/home/you"]);
    assert_eq!(merged.fs_write, vec!["/tmp"]);
    assert!(merged.is_path_readable_from("notes", &cwd));
    assert!(!merged.is_path_readable_from("/etc/passwd", &cwd));
}

#[test]
fn merged_commands_are_those_of_the_local_side() {
    let global = Permissions::given(None, None, Some(list(&["ls"])), Some(list(&["a", "b"])));
    let local = Permissions::given(None, None, Some(list(&["cat"])), Some(list(&["b", "c", "c"])));
    let merged = global.intersect_from(&local, &CurrentDir::Unknown);
    assert_eq!(merged.allowed_commands, vec!["cat"]);
    assert_eq!(merged.denied_commands, vec!["a", "b", "c"]);
    let merged = global.intersect_from(&Permissions::default(), &CurrentDir::Unknown);
    assert_eq!(merged.allowed_commands, vec!["ls"]);
}

#[test]
fn mounts_name_host_and_guest() {
    let permissions = WasmPermissions {
        mounts: list(&["/a:/b", "/c", "/d:/e:/f", "/g:ro", ":ro"]),
        env: vec![],
    };
    let mounts = permissions.resolved_mounts();
    let seen: Vec<(&str, &str, bool)> = mounts
        .iter()
        .map(|m| (m.host_path.as_str(), m.guest_path.as_str(), m.writable))
        .collect();
    assert_eq!(
        seen,
        vec![
            ("/a", "/b", true),
            ("/c", "/c", true),
            ("/d", "/e:/f", true),
            ("/g", "/g", false),
            ("", "", false),
        ]
    );
    let none = WasmPermissions::default().resolved_mounts();
    assert_eq!(none.len(), 1);
    assert_eq!(none[0].host_path, ".");
    assert_eq!(none[0].guest_path, ".");
    assert!(none[0].writable);
}

#[test]
fn configuration_is_where_xdg_says() {
    let xdg = Some("/xdg".to_string());
    let home = Some("/home/me/".to_string());
    assert_eq!(config_dir(&xdg, &home), Some("/xdg/asobi".to_string()));
    assert_eq!(config_dir(&None, &home), Some("/home/me/.asobi".to_string()));
    assert_eq!(config_dir(&None, &None), None);
    assert_eq!(config_path("/xdg/asobi"), "/xdg/asobi/config.toml");
}

#[test]
fn bad_configuration_is_told_with_its_file() {
    let dir = Some("/c".to_string());
    let error = load(&dir, Some(Err("bad".to_string()))).unwrap_err();
    assert_eq!(error, "/c/config.toml: bad");
    let error = load_local(Some(Err("worse".to_string()))).unwrap_err();
    assert_eq!(error, ".asobi/config.toml: worse");
    assert!(load_local(None).unwrap().is_none());
    assert!(load(&None, Some(Err("unseen".to_string()))).is_ok());
    let given = config_of("model = \"m\"");
    assert_eq!(load(&dir, Some(Ok(given))).unwrap().model.as_deref(), Some("m"));
    let merged = load_merged(Err("one".to_string()), Err("two".to_string()));
    assert_eq!(merged.unwrap_err(), "one");
    let merged = load_merged(Ok(Config::default()), Err("two".to_string()));
    assert_eq!(merged.unwrap_err(), "two");
}

fn tool(name: &str, wasm: &str) -> WasmToolConfig {
    WasmToolConfig {
        name: name.to_string(),
        wasm: wasm.to_string(),
        description: None,
        permissions: WasmPermissions::default(),
    }
}

#[test]
fn local_tools_come_after_global_ones() {
    let global = vec![tool("a", "a.wasm")];
    let local = vec![tool("a", "other.wasm"), tool("b", "b.wasm"), tool("c", "/c.wasm"), tool("b", "x")];
    let merged = merge_tools(&global, &local, "/work");
    let seen: Vec<(&str, &str)> =
        merged.iter().map(|t| (t.name.as_str(), t.wasm.as_str())).collect();
    assert_eq!(seen, vec![("a", "a.wasm"), ("b", "/work/b.wasm"), ("c", "/c.wasm")]);
}

#[test]
fn merging_without_a_local_configuration_keeps_the_global_one() {
    let mut global = Config::default();
    global.permissions.fs_read = list(&["/x"]);
    global.tools.push(tool("a", "a.wasm"));
    let (config, permissions, tools) = merge_configs(global, None, &CurrentDir::Unknown);
    assert_eq!(config.permissions.fs_read, vec!["/x"]);
    assert_eq!(permissions.fs_read, vec!["/x"]);
    assert_eq!(tools.len(), 1);
    let mut local = Config::default();
    local.tools.push(tool("b", "b.wasm"));
    let (_, _, tools) = merge_configs(Config::default(), Some(local), &CurrentDir::Unknown);
    assert_eq!(tools[0].wasm, "./b.wasm");
    let (_, permissions, _) = load_merged(Ok(Config::default()), Ok(None)).unwrap();
    assert_eq!(permissions.fs_write, vec!["/"]);
}
