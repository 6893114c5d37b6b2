use workflow::reconcile::Crawler;
use workflow::store::WorkStore;
use workflow::workflow::{Argument, Workflow};

#[test]
fn test_store() {
    let mut store = WorkStore::init();

    let name1 = "test";
    let command1 = "test";
    let args1 = vec![Argument::new("test", None, None, Vec::new())];

    let name2 = "test2";
    let command2 = "test2";
    let args2 = vec![Argument::new("test2", None, None, Vec::new())];

    let workflow = Workflow::new(name1, None, command1, args1, None, None, Vec::new());
    let workflow2 = Workflow::new(name2, None, command2, args2, None, None, Vec::new());

    store
        .insert_all(vec![workflow.clone(), workflow2.clone()])
        .unwrap();

    let result = store.get(workflow.id().inner()).unwrap();
    let is_some = result.is_some();
    assert!(is_some);
    let workflow1 = result.unwrap();
    assert_eq!(workflow1.name(), workflow.name());
    assert_eq!(workflow1.command(), workflow.command());
    assert_eq!(workflow1.id(), workflow.id());

    let result = store.get(workflow2.id().inner()).unwrap();
    let is_some = result.is_some();
    assert!(is_some);

    let found2 = result.unwrap();
    assert_eq!(found2.name(), workflow2.name());
    assert_eq!(found2.command(), workflow2.command());
    assert_eq!(found2.id(), workflow2.id());
}

#[test]
fn test_store_later_write_wins() {
    let mut store = WorkStore::init();
    let a = Workflow::slim("dup", "first", Vec::new());
    let b = Workflow::slim("dup", "second", Vec::new());
    store.insert_all(vec![a, b]).unwrap();
    let got = store.get("dup").unwrap().unwrap();
    assert_eq!(got.command().inner(), "second");
    assert_eq!(store.get_all().unwrap().len(), 1);
}

#[test]
fn test_store_key_order_and_iterate_from() {
    let mut store = WorkStore::init();
    let c = Workflow::slim("cherry", "c", Vec::new());
    let a = Workflow::slim("apple", "a", Vec::new());
    let b = Workflow::slim("banana", "b", Vec::new());
    store.insert_all(vec![c, a, b]).unwrap();
    let all = store.get_all().unwrap();
    let ids: Vec<String> = all.iter().map(|w| w.id().inner().to_string()).collect();
    assert_eq!(ids, vec!["apple", "banana", "cherry"]);
    let from_b = store.iterate_from("banana").unwrap();
    let ids2: Vec<String> = from_b.iter().map(|w| w.id().inner().to_string()).collect();
    assert_eq!(ids2, vec!["banana", "cherry"]);
}

#[test]
fn test_store_delete() {
    let mut store = WorkStore::init();
    store
        .insert_all(vec![
            Workflow::slim("one", "1", Vec::new()),
            Workflow::slim("two", "2", Vec::new()),
        ])
        .unwrap();
    store.delete("one").unwrap();
    assert!(store.get("one").unwrap().is_none());
    assert!(store.get("two").unwrap().is_some());
    store.delete_all().unwrap();
    assert_eq!(store.get_all().unwrap().len(), 0);
    // Deleting everything from an empty store is a no-op, not an error.
    store.delete_all().unwrap();
}

#[test]
fn test_crawl() {
    let mut store = WorkStore::init();
    let echo = Workflow::new(
        "echo",
        Some("Echo a message with a list of arguments"),
        "echo {{msg}}",
        Vec::new(),
        None,
        None,
        Vec::new(),
    );
    Crawler::crawl(vec![echo], &mut store).unwrap();

    let workflows = store.get_all().unwrap();

    assert_eq!(workflows.len(), 1);
    assert_eq!(workflows[0].id().inner(), "echo");
}

#[test]
fn test_reconcile_twice_is_a_no_op() {
    let mut store = WorkStore::init();
    let parsed = vec![
        Workflow::slim("alpha", "a", Vec::new()),
        Workflow::slim("beta", "b", Vec::new()),
    ];
    Crawler::crawl(parsed.clone(), &mut store).unwrap();
    let first = store.get_all().unwrap();
    Crawler::crawl(parsed, &mut store).unwrap();
    let second = store.get_all().unwrap();
    assert_eq!(first, second);
}

#[test]
fn test_reconcile_replaces_changed_record() {
    let mut store = WorkStore::init();
    let original = Workflow::slim("alpha", "old command", Vec::new());
    Crawler::crawl(vec![original], &mut store).unwrap();
    let modified = Workflow::slim("alpha", "new command", Vec::new());
    Crawler::crawl(vec![modified], &mut store).unwrap();
    let got = store.get("alpha").unwrap().unwrap();
    assert_eq!(got.command().inner(), "new command");
}

#[test]
fn test_reconcile_keeps_stale_record_on_pure_deletion() {
    let mut store = WorkStore::init();
    let a = Workflow::slim("alpha", "a", Vec::new());
    let b = Workflow::slim("beta", "b", Vec::new());
    Crawler::crawl(vec![a.clone(), b], &mut store).unwrap();
    // The source of `beta` disappears; `alpha` is unchanged: no divergence,
    // so the stale record survives.
    Crawler::crawl(vec![a], &mut store).unwrap();
    assert!(store.get("beta").unwrap().is_some());
}
