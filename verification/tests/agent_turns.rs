use asobi::agent::{
    call_error, resolve_model_id, Agent, AgentEvent, CallError, Outcome, Phase, Reply, StreamEvent,
    DEFAULT_SYSTEM_PROMPT,
};
use asobi::conversation::{ContentBlock, Message, Role, ToolResult, ToolUse};
use asobi::document::{format_document, Document};

fn said(events: Vec<AgentEvent>) -> Vec<String> {
    events
        .into_iter()
        .map(|e| match e {
            AgentEvent::Text(t) => format!("text {t}"),
            AgentEvent::ToolCall { name, input } => format!("call {name} {input}"),
            AgentEvent::ToolResult { name, output } => format!("result {name} {output}"),
            AgentEvent::Usage { input_tokens, output_tokens } => {
                format!("usage {input_tokens} {output_tokens}")
            }
            AgentEvent::TurnEnd => "end".to_string(),
            AgentEvent::Error(m) => format!("error {m}"),
        })
        .collect()
}

fn new_agent(restored: Option<Vec<Message>>) -> Agent {
    Agent::new("m".to_string(), None, None, None, "s".to_string(), restored)
}

fn use_of(id: &str, name: &str) -> ToolUse {
    ToolUse {
        tool_use_id: id.to_string(),
        name: name.to_string(),
        input: Document::Object(vec![("path".to_string(), Document::String("/x".to_string()))]),
    }
}

fn result_of(id: &str, text: &str) -> ToolResult {
    ToolResult { tool_use_id: id.to_string(), text: text.to_string(), is_error: false }
}

#[test]
fn model_id_becomes_an_arn() {
    let arn = |id: &str, region: Option<&str>, configured: Option<&str>| {
        resolve_model_id(
            id.to_string(),
            region.map(|r| r.to_string()),
            configured.map(|r| r.to_string()),
        )
    };
    assert_eq!(arn("m", None, None), "arn:aws:bedrock:us-east-1::foundation-model/m");
    assert_eq!(
        arn("m", None, Some("eu-west-1")),
        "arn:aws:bedrock:eu-west-1::foundation-model/m"
    );
    assert_eq!(
        arn("m", Some("us-west-2"), Some("eu-west-1")),
        "arn:aws:bedrock:us-west-2::foundation-model/m"
    );
    assert_eq!(arn("arn:x", Some("us-west-2"), None), "arn:x");
    assert_eq!(arn("arn", None, None), "arn:aws:bedrock:us-east-1::foundation-model/arn");
}

#[test]
fn new_agent_has_what_it_is_given() {
    let agent = new_agent(None);
    assert_eq!(agent.model_id, "arn:aws:bedrock:us-east-1::foundation-model/m");
    assert_eq!(agent.system_prompt, DEFAULT_SYSTEM_PROMPT);
    assert!(agent.messages.is_empty());
    let restored = vec![Message { role: Role::User, content: vec![ContentBlock::Other] }];
    let agent = Agent::new(
        "arn:a".to_string(),
        None,
        None,
        Some("Be brief.".to_string()),
        "s".to_string(),
        Some(restored),
    );
    assert_eq!(agent.model_id, "arn:a");
    assert_eq!(agent.system_prompt, "Be brief.");
    assert_eq!(agent.session_id, "s");
    assert_eq!(agent.messages.len(), 1);
}

#[test]
fn streamed_reply_is_put_together() {
    let mut reply = Reply::new();
    let start = |id: &str, name: &str| StreamEvent::ToolStart {
        tool_use_id: id.to_string(),
        name: name.to_string(),
    };
    assert!(reply.receive(StreamEvent::Other).is_none());
    assert!(matches!(reply.receive(StreamEvent::Text("I ".into())), Some(AgentEvent::Text(t)) if t == "I "));
    assert!(reply.receive(StreamEvent::Text("look".into())).is_some());
    assert!(reply.receive(StreamEvent::BlockStop).is_none());
    assert!(reply.receive(start("1", "read_file")).is_none());
    assert!(reply.receive(StreamEvent::ToolInput("{\"pa".into())).is_none());
    assert!(reply.receive(StreamEvent::ToolInput("th\":\"/x\"}".into())).is_none());
    assert!(reply.receive(StreamEvent::BlockStop).is_none());
    reply.receive(start("2", "list_files"));
    reply.receive(StreamEvent::ToolInput("not json".into()));
    reply.receive(StreamEvent::BlockStop);
    reply.receive(StreamEvent::BlockStop);
    assert!(!reply.ended);
    reply.receive(StreamEvent::MessageStop);
    assert!(reply.ended);
    assert_eq!(reply.text, "I look");
    assert_eq!(reply.tool_uses.len(), 2);
    assert_eq!(reply.tool_uses[0].tool_use_id, "1");
    assert_eq!(reply.tool_uses[0].name, "read_file");
    assert_eq!(format_document(&reply.tool_uses[0].input), "{\"path\":\"/x\"}");
    assert_eq!(format_document(&reply.tool_uses[1].input), "{}");
    assert_eq!(reply.tool_name, "");
}

#[test]
fn turn_without_tools() {
    let mut agent = new_agent(None);
    agent.send("hello");
    assert!(matches!(agent.phase, Phase::Calling));
    assert!(agent.current_tool().is_none());
    let told = agent.step(Outcome::Replied { text: "hi".to_string(), tool_uses: vec![] });
    assert!(told.is_empty());
    assert!(matches!(agent.phase, Phase::Saving));
    assert_eq!(agent.messages.len(), 2);
    assert!(matches!(&agent.messages[0].content[0], ContentBlock::Text(t) if t == "hello"));
    assert_eq!(agent.messages[1].role, Role::Assistant);
    assert!(matches!(&agent.messages[1].content[0], ContentBlock::Text(t) if t == "hi"));
    assert_eq!(said(agent.step(Outcome::Saved)), vec!["end"]);
    assert!(matches!(agent.phase, Phase::Idle));
}

#[test]
fn turn_with_tools() {
    let mut agent = new_agent(None);
    agent.send("look");
    let told = agent.step(Outcome::Replied {
        text: String::new(),
        tool_uses: vec![use_of("1", "read_file"), use_of("2", "other")],
    });
    assert_eq!(said(told), vec!["call read_file {\"path\":\"/x\"}"]);
    assert_eq!(agent.current_tool().unwrap().tool_use_id, "1");
    let told = agent.step(Outcome::ToolDone(result_of("1", "one")));
    assert_eq!(said(told), vec!["result read_file one", "call other {\"path\":\"/x\"}"]);
    assert_eq!(agent.current_tool().unwrap().tool_use_id, "2");
    let told = agent.step(Outcome::ToolDone(result_of("2", "two")));
    assert_eq!(said(told), vec!["result other two"]);
    assert!(matches!(agent.phase, Phase::Calling));
    assert_eq!(agent.messages.len(), 3);
    assert_eq!(agent.messages[1].content.len(), 2);
    assert_eq!(agent.messages[2].role, Role::User);
    assert!(matches!(&agent.messages[2].content[0], ContentBlock::ToolResult(r) if r.tool_use_id == "1" && r.text == "one"));
    assert!(matches!(&agent.messages[2].content[1], ContentBlock::ToolResult(r) if r.tool_use_id == "2"));
    agent.step(Outcome::Replied { text: "done".to_string(), tool_uses: vec![] });
    assert_eq!(agent.messages.len(), 4);
}

#[test]
fn text_comes_before_tools_in_a_reply() {
    let mut agent = new_agent(None);
    agent.send("look");
    agent.step(Outcome::Replied {
        text: "ok".to_string(),
        tool_uses: vec![use_of("1", "t")],
    });
    assert!(matches!(&agent.messages[1].content[0], ContentBlock::Text(t) if t == "ok"));
    assert!(matches!(&agent.messages[1].content[1], ContentBlock::ToolUse(t) if t.name == "t"));
}

#[test]
fn empty_reply_adds_nothing() {
    let mut agent = new_agent(None);
    agent.send("hello");
    let told = agent.step(Outcome::Replied { text: String::new(), tool_uses: vec![] });
    assert!(told.is_empty());
    assert_eq!(agent.messages.len(), 1);
    assert!(matches!(agent.phase, Phase::Saving));
}

#[test]
fn failed_call_takes_the_message_back() {
    let mut agent = new_agent(None);
    agent.send("hello");
    let told = agent.step(Outcome::CallFailed("no network".to_string()));
    assert_eq!(said(told), vec!["error no network"]);
    assert!(agent.messages.is_empty());
    assert_eq!(said(agent.step(Outcome::Saved)), vec!["end"]);
}

#[test]
fn error_and_end_are_told_last() {
    let mut agent = new_agent(None);
    agent.send("look");
    let mut told = agent.step(Outcome::Replied {
        text: String::new(),
        tool_uses: vec![use_of("1", "t")],
    });
    told.extend(agent.step(Outcome::ToolDone(result_of("1", "one"))));
    told.extend(agent.step(Outcome::CallFailed("cut".to_string())));
    told.extend(agent.step(Outcome::Saved));
    assert!(matches!(agent.phase, Phase::Idle));
    assert_eq!(said(told), vec!["call t {\"path\":\"/x\"}", "result t one", "error cut", "end"]);
}

#[test]
fn failed_calls_are_told() {
    let error = call_error(&CallError::Request("refused".to_string()));
    assert_eq!(error, "Bedrock API call failed: refused");
    assert_eq!(call_error(&CallError::Stream("cut".to_string())), "stream error: cut");
}
