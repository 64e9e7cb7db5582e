use asobi::agent::AgentEvent;
use asobi::cli::{
    config_error, parse_tool_spec, resume_hint, Cli, Printed, PromptSource, ResolvedConfig, Run,
};
use asobi::config::Config;

fn cli_base() -> Cli {
    Cli {
        model: None,
        region: None,
        system_prompt: None,
        prompt: None,
        prompt_file: None,
        continue_last: false,
        restore: None,
        tools: vec![],
    }
}

fn unread() -> Result<String, String> {
    Err("nothing was read".to_string())
}

#[test]
fn test_resolve_prompt_none() {
    let cli = cli_base();
    assert!(cli.resolve_prompt(unread()).unwrap().is_none());
}

#[test]
fn test_resolve_prompt_inline() {
    let mut cli = cli_base();
    cli.prompt = Some("hello".to_string());
    assert_eq!(cli.resolve_prompt(unread()).unwrap().unwrap(), "hello");
}

#[test]
fn test_resolve_prompt_file() {
    let mut cli = cli_base();
    cli.prompt_file = Some("/tmp/asobi_test_prompt/prompt.txt".to_string());
    assert!(matches!(cli.prompt_source(), PromptSource::File(p) if p == "/tmp/asobi_test_prompt/prompt.txt"));
    assert_eq!(cli.resolve_prompt(Ok("from file".to_string())).unwrap().unwrap(), "from file");
}

#[test]
fn test_resolve_prompt_file_not_found() {
    let mut cli = cli_base();
    cli.prompt_file = Some("/nonexistent/path/prompt.txt".to_string());
    let result = cli.resolve_prompt(Err("No such file".to_string()));
    assert!(result.is_err());
    assert_eq!(
        result.unwrap_err(),
        "failed to read prompt file: /nonexistent/path/prompt.txt: No such file"
    );
}

#[test]
fn test_resolve_prompt_inline_takes_precedence() {
    let mut cli = cli_base();
    cli.prompt = Some("inline".to_string());
    cli.prompt_file = Some("/some/file".to_string());
    assert_eq!(cli.resolve_prompt(unread()).unwrap().unwrap(), "inline");
}

#[test]
fn test_resolve_session_new() {
    let cli = cli_base();
    let (id, restore) = cli.resolve_session(Ok(None)).unwrap();
    assert!(!restore);
    assert!(uuid::Uuid::parse_str(&id).is_ok());
}

#[test]
fn test_resolve_session_restore() {
    let mut cli = cli_base();
    cli.restore = Some("abc-123".to_string());
    let (id, restore) = cli.resolve_session(Ok(None)).unwrap();
    assert!(restore);
    assert_eq!(id, "abc-123");
}

#[test]
fn prompt_from_standard_input() {
    let mut cli = cli_base();
    cli.prompt_file = Some("-".to_string());
    assert!(matches!(cli.prompt_source(), PromptSource::Stdin));
    assert_eq!(cli.resolve_prompt(Ok("typed".to_string())).unwrap().unwrap(), "typed");
    let error = cli.resolve_prompt(Err("closed".to_string())).unwrap_err();
    assert_eq!(error, "failed to read prompt from stdin: closed");
}

#[test]
fn last_session_is_continued() {
    let mut cli = cli_base();
    assert!(!cli.needs_latest());
    cli.continue_last = true;
    assert!(cli.needs_latest());
    let (id, restore) = cli.resolve_session(Ok(Some("last".to_string()))).unwrap();
    assert_eq!(id, "last");
    assert!(restore);
    assert_eq!(cli.resolve_session(Ok(None)).unwrap_err(), "no previous session found");
    assert_eq!(cli.resolve_session(Err("denied".to_string())).unwrap_err(), "denied");
    cli.restore = Some("this".to_string());
    assert!(!cli.needs_latest());
    assert_eq!(cli.resolve_session(Ok(Some("last".to_string()))).unwrap().0, "this");
}

#[test]
fn command_line_counts_before_the_configuration() {
    let mut cli = cli_base();
    let mut config = Config::default();
    let resolved = ResolvedConfig::from_cli_and_config(&cli, &config);
    assert_eq!(resolved.model, "openai.gpt-oss-120b-1:0");
    assert_eq!(resolved.region, None);
    config.model = Some("configured".to_string());
    config.region = Some("eu-west-1".to_string());
    config.system_prompt = Some("Be brief.".to_string());
    let resolved = ResolvedConfig::from_cli_and_config(&cli, &config);
    assert_eq!(resolved.model, "configured");
    assert_eq!(resolved.region.as_deref(), Some("eu-west-1"));
    assert_eq!(resolved.system_prompt.as_deref(), Some("Be brief."));
    cli.model = Some("asked".to_string());
    cli.region = Some("us-west-2".to_string());
    cli.system_prompt = Some("Be long.".to_string());
    let resolved = ResolvedConfig::from_cli_and_config(&cli, &config);
    assert_eq!(resolved.model, "asked");
    assert_eq!(resolved.region.as_deref(), Some("us-west-2"));
    assert_eq!(resolved.system_prompt.as_deref(), Some("Be long."));
}

#[test]
fn test_invalid_tool_spec_ignored() {
    let error = parse_tool_spec("badformat").unwrap_err();
    assert!(error.contains("invalid --tool format"));
    let tool = parse_tool_spec("edit_file:/p/edit:file.wasm").unwrap();
    assert_eq!(tool.name, "edit_file");
    assert_eq!(tool.wasm, "/p/edit:file.wasm");
    assert!(tool.description.is_none());
    assert!(tool.permissions.mounts.is_empty());
}

#[test]
fn test_config_error_exits() {
    assert!(config_error(".asobi/config.toml: bad").contains("config error"));
    assert_eq!(config_error("x"), "config error: x");
}

#[test]
fn resuming_is_hinted_at() {
    assert_eq!(resume_hint("abc"), "\nTo resume this session:\n  asobi --restore abc");
}

fn out(printed: Option<Printed>) -> String {
    match printed {
        Some(Printed::Out(text)) => format!("out:{text}"),
        Some(Printed::Log(line)) => format!("log:{line}"),
        None => "nothing".to_string(),
    }
}

#[test]
fn run_prints_text_and_logs_the_rest() {
    let mut run = Run::new();
    assert_eq!(out(run.receive(AgentEvent::Text("hi".into()))), "out:hi");
    let call = AgentEvent::ToolCall { name: "t".into(), input: "{}".into() };
    assert_eq!(out(run.receive(call)), "log:[tool] t: {}");
    let result = AgentEvent::ToolResult { name: "t".into(), output: "é".repeat(250) };
    assert_eq!(out(run.receive(result)), format!("log:[result] t: {}", "é".repeat(200)));
    let usage = AgentEvent::Usage { input_tokens: 12, output_tokens: 0 };
    assert_eq!(out(run.receive(usage)), "log:[usage] input=12 output=0");
    assert!(!run.has_error);
    assert_eq!(run.exit_code(), 0);
    assert_eq!(out(run.receive(AgentEvent::Error("bad".into()))), "log:[error] bad");
    assert_eq!(run.exit_code(), 1);
    assert!(!run.ended);
    assert_eq!(out(run.receive(AgentEvent::TurnEnd)), "nothing");
    assert!(run.ended);
    assert_eq!(run.exit_code(), 1);
}
