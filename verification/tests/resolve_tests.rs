use workflow::command::{Command, Run};
use workflow::resolver::Precedence;
use workflow::store::WorkStore;
use workflow::workflow::{Argument, Workflow};

#[test]
fn test_parse_argument() {
    let argument = Argument::slim("test_arg", None, vec![]);
    let argument = argument.try_parse(None).unwrap().unwrap();

    assert_eq!(argument.len(), 1);
    assert_eq!(
        argument.get("test_arg"),
        Some(&"<insert value>".to_string())
    );
}

#[test]
fn test_parse_argument_with_precedence() {
    let argument = Argument::slim("test_arg", None, vec![]);

    let mut precedence = Precedence::new();
    precedence.insert("test_arg", "test");

    let argument = argument.try_parse(Some(&precedence)).unwrap().unwrap();

    assert_eq!(argument.len(), 1);
    assert_eq!(argument.get("test_arg"), Some(&"test".to_string()));
}

#[test]
fn test_parse_argument_without_precedence_and_default() {
    let argument = Argument::slim("test_arg", Some("super test"), vec![]);

    let argument = argument.try_parse(None).unwrap().unwrap();

    assert_eq!(argument.len(), 1);
    assert_eq!(argument.get("test_arg"), Some(&"super test".to_string()));
}

#[test]
fn test_argument_resolution_default_and_override() {
    let env = Argument::new("env", None, Some("prod"), Vec::new());
    let resolved = env.try_parse(None).unwrap().unwrap();
    assert_eq!(resolved.get("env"), Some(&"prod".to_string()));

    let mut precedence = Precedence::new();
    precedence.insert("env", "staging");
    let resolved = env.try_parse(Some(&precedence)).unwrap().unwrap();
    assert_eq!(resolved.get("env"), Some(&"staging".to_string()));

    let bare = Argument::new("region", None, None, Vec::new());
    let resolved = bare.try_parse(None).unwrap().unwrap();
    assert_eq!(resolved.get("region"), Some(&"<insert value>".to_string()));
}

#[test]
fn test_workflow_try_parse_resolves_every_argument() {
    let args = vec![
        Argument::new("env", None, Some("prod"), Vec::new()),
        Argument::new("msg", None, None, Vec::new()),
    ];
    let w = Workflow::slim("t", "run {{env}} {{msg}}", args);
    let mut overrides = Precedence::new();
    overrides.insert("msg", "hi");
    let resolved = w.try_parse(&overrides).unwrap();
    assert_eq!(resolved.get("env"), Some(&"prod".to_string()));
    assert_eq!(resolved.get("msg"), Some(&"hi".to_string()));
}

#[test]
fn test_render_scenario() {
    let w = Workflow::slim("t", "echo {{msg}}", Vec::new());
    let mut precedence = Precedence::new();
    precedence.insert("msg", "hi");
    let rendered = w.command().replace(&precedence).unwrap();
    assert_eq!(rendered, "echo hi");
}

#[test]
fn test_render_unresolved_placeholder_fails() {
    let w = Workflow::slim("t", "echo {{msg}}", Vec::new());
    let precedence = Precedence::new();
    let rendered = w.command().replace(&precedence);
    assert!(rendered.is_err());
}

#[test]
fn test_render_escapes_single_quotes() {
    let w = Workflow::slim("t", "say {{msg}}", Vec::new());
    let mut precedence = Precedence::new();
    precedence.insert("msg", "it's");
    let rendered = w.command().replace(&precedence).unwrap();
    assert_eq!(rendered, "say it\\'s");
}

#[test]
fn test_render_trims_placeholder_names() {
    let w = Workflow::slim("t", "echo {{ msg }}", Vec::new());
    let mut precedence = Precedence::new();
    precedence.insert("msg", "hi");
    let rendered = w.command().replace(&precedence).unwrap();
    assert_eq!(rendered, "echo hi");
}

#[test]
fn test_prepare() {
    let mut store = WorkStore::init();
    let echo = Workflow::new(
        "echo",
        Some("Echo a message with a list of arguments"),
        "echo \"This is a cool echo to try out: {{sshKeyPath}} and User: {{userName}} <{{userEmail}}>\"",
        Vec::new(),
        None,
        None,
        Vec::new(),
    );
    store.insert_all(vec![echo]).unwrap();

    let command = Command::Run(Run::new("echo"));
    let result = command.prepare(&store);

    let found = result.as_ref().unwrap().as_ref().unwrap();
    let is_some = result.is_ok() && result.as_ref().unwrap().is_some();

    assert!(is_some);
    assert_eq!(found.id().inner(), "echo");
    assert_eq!(
        found.description().unwrap().inner(),
        "Echo a message with a list of arguments"
    );
    assert_eq!(
        found.command().inner(),
        "echo \"This is a cool echo to try out: {{sshKeyPath}} and User: {{userName}} <{{userEmail}}>\""
    );
}

#[test]
fn test_prepare_normalizes_the_name() {
    let mut store = WorkStore::init();
    let w = Workflow::slim("My Workflow", "ls", Vec::new());
    store.insert_all(vec![w]).unwrap();
    let command = Command::Run(Run::new("  My-Workflow "));
    let found = command.prepare(&store).unwrap();
    assert!(found.is_some());
    assert_eq!(found.unwrap().id().inner(), "my_workflow");
}
