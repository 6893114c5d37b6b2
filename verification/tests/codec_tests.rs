use workflow::codec::{parse_document, serialize_document};
use workflow::workflow::{Argument, ArgumentValue, Workflow, WorkflowTag};

fn sample_workflow() -> Workflow {
    let args = vec![
        Argument::new(
            "msg",
            Some("what to say"),
            Some("hello"),
            vec![ArgumentValue::new("hi"), ArgumentValue::new("there")],
        ),
        Argument::new("level", None, None, Vec::new()),
    ];
    Workflow::new(
        "Echo Greeting",
        Some("Echo a message"),
        "echo {{msg}}",
        args,
        Some("https://example.org/echo"),
        Some("someone"),
        vec![WorkflowTag::new("shell"), WorkflowTag::new("demo")],
    )
}

#[test]
fn test_parse_workflow_string() {
    let workflow = r#"
            name: test
            command: test
        "#;
    let result = parse_document(workflow);
    assert!(result.is_ok());
}

#[test]
fn crawler_test_parse_workflow_string() {
    let workflow = r#"
            name: test
            command: test
        "#;
    let result = parse_document(workflow);
    assert!(result.is_ok());
    let w = result.unwrap();
    assert_eq!(w.name().inner(), "test");
    assert_eq!(w.command().inner(), "test");
}

#[test]
fn test_parse_missing_name() {
    let result = parse_document("command: ls\n");
    assert!(result.is_err());
}

#[test]
fn test_parse_missing_command() {
    let result = parse_document("name: ls\n");
    assert!(result.is_err());
}

#[test]
fn test_parse_empty_name() {
    let result = parse_document("name: \ncommand: ls\n");
    assert!(result.is_err());
}

#[test]
fn test_parse_full_document() {
    let text = "name: deploy\ndescription: Ship it\ncommand: deploy {{env}}\narguments:\n- name: env\n  description: the environment\n  default_value: prod\n  values:\n  - prod\n  - staging\nsource_url: https://example.org\nauthor: someone\nversion: 0.0.1\ntags:\n- ops\n- shell\n";
    let w = parse_document(text).unwrap();
    assert_eq!(w.name().inner(), "deploy");
    assert_eq!(w.description().unwrap().inner(), "Ship it");
    assert_eq!(w.command().inner(), "deploy {{env}}");
    assert_eq!(w.arguments().len(), 1);
    let a = &w.arguments()[0];
    assert_eq!(a.name().inner(), "env");
    assert_eq!(a.description().unwrap().inner(), "the environment");
    assert_eq!(a.default().unwrap().inner(), "prod");
    let vals: Vec<&str> = a.values().iter().map(|v| v.inner()).collect();
    assert_eq!(vals, vec!["prod", "staging"]);
    assert_eq!(w.source().unwrap().inner(), "https://example.org");
    assert_eq!(w.author().unwrap().inner(), "someone");
    assert_eq!(w.version().unwrap().inner(), "0.0.1");
    let tags: Vec<&str> = w.tags().iter().map(|t| t.inner()).collect();
    assert_eq!(tags, vec!["ops", "shell"]);
}

#[test]
fn test_parse_ignores_unknown_fields() {
    let text = "name: t\nshell: bash\ncommand: ls\n";
    let w = parse_document(text).unwrap();
    assert_eq!(w.name().inner(), "t");
    assert_eq!(w.command().inner(), "ls");
}

#[test]
fn test_serialize_then_parse_round_trip() {
    let w = sample_workflow();
    let text = serialize_document(&w);
    let parsed = parse_document(text.as_str()).unwrap();
    assert_eq!(parsed.name(), w.name());
    assert_eq!(parsed.command(), w.command());
    assert_eq!(parsed.description(), w.description());
    assert_eq!(parsed.arguments(), w.arguments());
    assert_eq!(parsed.source(), w.source());
    assert_eq!(parsed.author(), w.author());
    assert_eq!(parsed.version(), w.version());
    assert_eq!(parsed.tags(), w.tags());
}

#[test]
fn test_checksum_deterministic_across_round_trip() {
    let w = sample_workflow();
    let c1 = w.checksum();
    let text = serialize_document(&w);
    let parsed = parse_document(text.as_str()).unwrap();
    assert_eq!(parsed.checksum(), c1);
    assert_eq!(w.checksum(), c1);
}

#[test]
fn test_checksum_changes_with_content() {
    let a = Workflow::slim("t", "ls", Vec::new());
    let b = Workflow::slim("t", "ls -la", Vec::new());
    assert_ne!(a.checksum(), b.checksum());
}
