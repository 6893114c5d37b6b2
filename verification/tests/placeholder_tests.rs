use workflow::command::Output;
use workflow::fuzzy::rank_names;
use workflow::render::{get_values, placeholder_shape};
use workflow::workflow::{RawVec, WorkflowTag};

#[test]
fn test_get_values_extracts_names() {
    let names = get_values("echo {{msg}} to {{user}}").unwrap();
    assert_eq!(names, vec!["msg".to_string(), "user".to_string()]);
}

#[test]
fn test_get_values_trims_and_deduplicates() {
    let names = get_values("run {{ env }} then {{env}} again").unwrap();
    assert_eq!(names, vec!["env".to_string()]);
}

#[test]
fn test_get_values_without_placeholders() {
    let names = get_values("ls -la").unwrap();
    assert_eq!(names.len(), 0);
}

#[test]
fn test_placeholder_shape() {
    assert_eq!(placeholder_shape("echo {{msg}}").unwrap(), true);
    assert_eq!(placeholder_shape("echo hi").unwrap(), false);
    assert!(placeholder_shape("echo {{msg").is_err());
}

#[test]
fn test_rank_names_keeps_close_names() {
    let names = vec!["zebra-like-thing".to_string(), "alpar".to_string(), "alpha".to_string()];
    let ranked = rank_names("alpha", &names);
    // Close names come first, ordered by distance; a name more than half
    // its length away from the query is dropped.
    assert_eq!(ranked, vec!["alpha".to_string(), "alpar".to_string()]);
}

#[test]
fn test_tags_from_comma_separated_list() {
    let parsed = RawVec::<WorkflowTag>::from_str("shell, demo ,ops").unwrap();
    let tags: Vec<&str> = parsed.inner().iter().map(|t| t.inner()).collect();
    assert_eq!(tags, vec!["shell", "demo", "ops"]);
}

#[test]
fn test_output_kinds() {
    let out = Output::new("list", "success");
    assert_eq!(out.kind(), "list");
    assert_eq!(out.message(), "success");
    assert_eq!(Output::unsupported().kind(), "unsupported");
}
