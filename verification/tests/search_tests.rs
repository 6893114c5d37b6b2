use workflow::command::Search;
use workflow::config::Configuration;
use workflow::file_ext::FileExtension;
use workflow::fuzzy::levenshtein;
use workflow::hasher::Hasher;
use workflow::search::{fuzzy_fallback, SearchPhase, SearchTerm};
use workflow::text::str_to_chars;
use workflow::workflow::{normalize_name, Argument, Workflow};

#[test]
fn test_fuzzy_search() {
    let fuzzy = Search::from("test");
    let list = vec![
        "test".to_string(),
        "test2".to_string(),
        "test3".to_string(),
        "test4".to_string(),
        "test5".to_string(),
    ];
    let res = fuzzy.search("", &list);
    assert_eq!(res, vec!["test"]);
}

#[test]
fn test_fuzzy_search_complicated_words() {
    let fuzzy = Search::from("deg");
    let list = vec![
        "d".to_string(),
        "de".to_string(),
        "def".to_string(),
        "defg".to_string(),
        "defgh".to_string(),
    ];
    let res = fuzzy.search("", &list);
    assert_eq!(res, vec!["de", "d", "def"]);
}

#[test]
fn test_ideal_hasher_hash() {
    let hasher = Hasher::new();
    let hash = hasher.hash("test");
    assert_eq!(hash, 14402189752926126668);
}

#[test]
fn test_ideal_from_configuration_from_str() {
    let configuration = r#"
            workflow_dir=/home/username/workflows
        "#;

    let configuration = Configuration::from_str(configuration).unwrap();
    assert_eq!(configuration.workflow_dir(), "/home/username/workflows");
}

#[test]
fn test_from_configuration_from_str_with_invalid_configuration() {
    let configuration = r#"
            workflow_dir==/home/username/workflows
        "#;

    let configuration = Configuration::from_str(configuration);
    assert!(configuration.is_err());
}

#[test]
fn test_from_configuration_with_spaces() {
    let configuration = r#"
            workflow_dir = /home/username/workflows
        "#;

    let configuration = Configuration::from_str(configuration).unwrap();
    assert_eq!(configuration.workflow_dir(), "/home/username/workflows");
}

#[test]
fn test_file_from() {
    let yaml = "test.yaml";
    let yml = "test.yml";
    let none = "test";

    assert_eq!(FileExtension::from(yaml), FileExtension::Yaml);
    assert_eq!(FileExtension::from(yml), FileExtension::Yml);
    assert_eq!(FileExtension::from(none), FileExtension::Absent);
}

#[test]
fn test_file_format() {
    assert_eq!(FileExtension::format("echo"), "echo.yaml");
    assert_eq!(FileExtension::format("echo.yml"), "echo.yml");
    assert_eq!(FileExtension::format("echo.yaml"), "echo.yaml");
    // Only a trailing extension counts; formatting is idempotent.
    assert_eq!(FileExtension::from("a.yml.bak"), FileExtension::Absent);
    assert_eq!(FileExtension::format("a.yml.bak"), "a.yml.bak.yaml");
    assert_eq!(
        FileExtension::format(&FileExtension::format("echo")),
        FileExtension::format("echo")
    );
}

#[test]
fn test_file_format_all_deduplicates() {
    let names = vec!["echo".to_string(), "echo.yaml".to_string(), "run".to_string()];
    let formatted = FileExtension::format_all(names);
    assert_eq!(formatted, vec!["echo.yaml".to_string(), "run.yaml".to_string()]);
}

#[test]
fn test_provides_correct_simple_suggestions() {
    let arguments = vec![
        Argument::slim("test", Some("test"), vec!["test"]),
        Argument::slim("test2", Some("test2"), vec!["test2"]),
    ];
    let workflow = Workflow::slim("test", "test", arguments);

    let suggestions = workflow.suggestion("test", "test").unwrap();

    assert_eq!(suggestions.len(), 1);
    assert_eq!(suggestions[0], "test");
}

#[test]
fn test_provides_correct_complex_suggestions() {
    let arguments = vec![Argument::slim(
        "test",
        Some("test"),
        vec![
            "surreptitious",
            "tergiversation",
            "mergitramation",
            "turreprosation",
        ],
    )];
    let workflow = Workflow::slim("test", "test", arguments);
    let suggestions = workflow.suggestion("erg", "test").unwrap();

    assert_eq!(suggestions.len(), 2);
    assert_eq!(suggestions[0], "tergiversation");
    assert_eq!(suggestions[1], "mergitramation");
}

#[test]
fn test_levenshtein_distance() {
    let a = str_to_chars("kitten");
    let b = str_to_chars("sitting");
    assert_eq!(levenshtein(&a, &b), 3);
    let e = str_to_chars("");
    assert_eq!(levenshtein(&e, &a), 6);
    assert_eq!(levenshtein(&a, &a), 0);
}

#[test]
fn test_search_fallback_prefers_exact_hits() {
    let exact = vec!["doc-1".to_string(), "doc-2".to_string()];
    match fuzzy_fallback(exact.clone()) {
        SearchPhase::Done(hits) => assert_eq!(hits, exact),
        SearchPhase::Fuzzy => panic!("the fuzzy phase must not run on exact hits"),
    }
}

#[test]
fn test_search_fallback_on_zero_exact_hits() {
    let exact: Vec<String> = Vec::new();
    match fuzzy_fallback(exact) {
        SearchPhase::Done(_) => panic!("an empty exact phase must fall back"),
        SearchPhase::Fuzzy => {}
    }
}

#[test]
fn test_search_term_wildcard() {
    assert_eq!(SearchTerm::wildcard().inner(), "*");
    assert_eq!(SearchTerm::from("echo").inner(), "echo");
}

#[test]
fn test_id_normalization() {
    assert_eq!(normalize_name("My Workflow"), "my_workflow");
    assert_eq!(normalize_name("my-workflow"), "my_workflow");
    assert_eq!(normalize_name("my_workflow"), "my_workflow");
    assert_eq!(normalize_name("  Echo  "), "echo");
    // Applying normalization to an already-normalized id returns the same id.
    assert_eq!(normalize_name(&normalize_name("My-Mixed Name")), normalize_name("My-Mixed Name"));
}
