use activity_mcp::store::{RefRow, Snapshot, Store, StoreError, StoredEvent};
use serde_json::Value;

fn subject(text: &str) -> Value {
    let mut map = serde_json::Map::new();
    map.insert("subject".to_string(), text.into());
    Value::Object(map)
}

#[test]
fn project_returns_after_removal_as_new() {
    let mut store = Store::open_in_memory();
    let (id, created) = store.upsert_project("/r/a", "a", 10).unwrap();
    assert!(created);
    assert_eq!(store.upsert_project("/r/a", "a", 11).unwrap(), (id, false));
    store.mark_removed(id, 12);
    assert!(store.active_projects().is_empty());
    assert_eq!(store.upsert_project("/r/a", "a", 13).unwrap(), (id, true));
    assert_eq!(store.find_project("/r/a").unwrap().name, "a");
    assert_eq!(store.find_project("a").unwrap().id, id);
}

#[test]
fn commit_is_recorded_once_per_project() {
    let mut store = Store::open_in_memory();
    let (id, _) = store.upsert_project("/r/a", "a", 1).unwrap();
    let payload = subject("x");
    assert!(store.insert_event(id, "commit", 5, Some("abc"), &payload).unwrap());
    assert!(!store.insert_event(id, "commit", 6, Some("abc"), &payload).unwrap());
    // Events without a commit are not held to be unique.
    assert!(store.insert_event(id, "checkout", 7, None, &payload).unwrap());
    assert!(store.insert_event(id, "checkout", 8, None, &payload).unwrap());
    assert_eq!(store.events_between(0, 100).len(), 3);
    assert_eq!(store.events_between(5, 7).len(), 1);
    assert_eq!(store.earliest_event(), Some(5));
    assert_eq!(store.projects()[0].last_activity, Some(8));
}

#[test]
fn digests_are_read_and_acked() {
    let mut store = Store::open_in_memory();
    assert_eq!(store.last_period_to(), None);
    let first = store.insert_digest(0, 10, 10, &Value::Object(serde_json::Map::new()), "один").unwrap();
    let second = store.insert_digest(10, 20, 20, &Value::Object(serde_json::Map::new()), "два").unwrap();
    assert_eq!(store.last_period_to(), Some(20));
    let unread = store.digests(true, 10);
    assert_eq!(unread.iter().map(|d| d.id).collect::<Vec<_>>(), vec![second, first]);
    assert!(store.ack_digest(second, 30));
    assert!(!store.ack_digest(999, 30));
    assert_eq!(store.digests(true, 10).len(), 1);
    assert_eq!(store.digests(false, 10).len(), 2);
    assert_eq!(store.prune(15), 1);
}

#[test]
fn a_second_acknowledgement_keeps_the_first() {
    let mut store = Store::open_in_memory();
    let id = store.insert_digest(0, 10, 10, &Value::Null, "t").unwrap();
    assert!(store.ack_digest(id, 30));
    assert!(store.ack_digest(id, 40));
    assert_eq!(store.digests(false, -1)[0].acked_at, Some(30));
}

#[test]
fn a_project_comes_back_under_its_new_name() {
    let mut store = Store::open_in_memory();
    let (id, _) = store.upsert_project("/r/a", "old", 1).unwrap();
    assert_eq!(store.upsert_project("/r/a", "new", 2).unwrap(), (id, false));
    assert_eq!(store.projects()[0].name, "old");
    store.mark_removed(id, 3);
    store.mark_removed(id, 4);
    assert_eq!(store.projects()[0].removed_at, Some(3));
    assert_eq!(store.upsert_project("/r/a", "new", 5).unwrap(), (id, true));
    assert_eq!(store.projects()[0].name, "new");
    assert_eq!(store.projects()[0].first_seen, 1);
}

#[test]
fn a_project_that_is_there_is_found_first() {
    let mut store = Store::open_in_memory();
    let (gone, _) = store.upsert_project("/r/a", "a", 1).unwrap();
    store.mark_removed(gone, 2);
    assert_eq!(store.find_project("a").unwrap().id, gone);
    let (there, _) = store.upsert_project("/q/a", "a", 3).unwrap();
    assert_eq!(store.find_project("a").unwrap().id, there);
    assert!(store.find_project("b").is_none());
}

#[test]
fn rows_of_unknown_projects_are_refused() {
    let mut store = Store::open_in_memory();
    assert_eq!(store.insert_event(7, "commit", 1, None, &Value::Null), Err(StoreError::UnknownProject));
    assert_eq!(store.set_ref(7, "main", "a"), Err(StoreError::UnknownProject));
    store.save_snapshot(7, &Snapshot { head_branch: None, dirty_files: 0, dirty_sample: vec![] }, 1);
    assert!(store.projects().is_empty());
}

#[test]
fn used_up_identifiers_are_told() {
    let mut store = Store::open_in_memory();
    let (id, _) = store.upsert_project("/r/a", "a", 1).unwrap();
    store.insert_event(id, "checkout", 1, None, &Value::Null).unwrap();
    store.events[0].id = i64::MAX;
    assert_eq!(store.insert_event(id, "checkout", 1, None, &Value::Null), Err(StoreError::Full));
    store.projects[0].id = i64::MAX;
    assert_eq!(store.upsert_project("/r/b", "b", 1), Err(StoreError::Full));
    store.insert_digest(0, 1, 1, &Value::Null, "").unwrap();
    store.digests[0].id = i64::MAX;
    assert_eq!(store.insert_digest(0, 1, 1, &Value::Null, ""), Err(StoreError::Full));
}

#[test]
fn tips_are_set_and_dropped() {
    let mut store = Store::open_in_memory();
    let (id, _) = store.upsert_project("/r/a", "a", 1).unwrap();
    store.set_ref(id, "main", "a").unwrap();
    store.set_ref(id, "dev", "b").unwrap();
    store.set_ref(id, "main", "c").unwrap();
    let tip = |name: &str, sha: &str| RefRow { project_id: id, name: name.into(), sha: sha.into() };
    assert_eq!(store.refs(id), vec![tip("main", "c"), tip("dev", "b")]);
    store.delete_ref(id, "main");
    assert_eq!(store.refs(id), vec![tip("dev", "b")]);
    assert_eq!(store.prune(i64::MAX), 0);
    assert_eq!(store.refs(id), vec![tip("dev", "b")]);
}

#[test]
fn a_snapshot_is_kept() {
    let mut store = Store::open_in_memory();
    let (id, _) = store.upsert_project("/r/a", "a", 1).unwrap();
    let snapshot = Snapshot {
        head_branch: Some("main".into()),
        dirty_files: 2,
        dirty_sample: vec!["?? x".into()],
    };
    store.save_snapshot(id, &snapshot, 9);
    let project = store.find_project("a").unwrap();
    assert_eq!(project.head_branch.as_deref(), Some("main"));
    assert_eq!(project.dirty_files, 2);
    assert_eq!(project.dirty_sample, vec!["?? x"]);
    assert_eq!(project.last_scanned, Some(9));
}

#[test]
fn events_are_read_newest_first_up_to_the_limit() {
    let mut store = Store::open_in_memory();
    let (a, _) = store.upsert_project("/r/a", "a", 1).unwrap();
    let (b, _) = store.upsert_project("/r/b", "b", 1).unwrap();
    store.insert_event(a, "one", 5, None, &subject("1")).unwrap();
    store.insert_event(b, "two", 7, None, &subject("2")).unwrap();
    store.insert_event(a, "three", 7, None, &subject("3")).unwrap();
    let kinds = |rows: Vec<activity_mcp::store::EventRow>| rows.into_iter().map(|e| e.kind).collect::<Vec<_>>();
    assert_eq!(kinds(store.recent_events(None, 0, -1)), vec!["three", "two", "one"]);
    assert_eq!(kinds(store.recent_events(None, 0, 2)), vec!["three", "two"]);
    assert_eq!(kinds(store.recent_events(Some(a), 0, 10)), vec!["three", "one"]);
    assert_eq!(kinds(store.recent_events(None, 6, 10)), vec!["three", "two"]);
    assert_eq!(kinds(store.recent_events(None, 0, 0)), Vec::<String>::new());
    let period = store.events_between(5, 7);
    assert_eq!(period.iter().map(|e| e.project.as_str()).collect::<Vec<_>>(), vec!["b", "a"]);
    assert_eq!(period[1].payload, subject("3"));
    // Adjoining periods share nothing and lose nothing.
    assert_eq!(store.events_between(0, 5).len() + store.events_between(5, 7).len(), store.events_between(0, 7).len());
}

#[test]
fn pruning_drops_what_is_old() {
    let mut store = Store::open_in_memory();
    let (a, _) = store.upsert_project("/r/a", "a", 1).unwrap();
    store.insert_event(a, "one", 5, None, &Value::Null).unwrap();
    store.insert_event(a, "two", 6, None, &Value::Null).unwrap();
    store.insert_digest(0, 5, 5, &Value::Null, "").unwrap();
    assert_eq!(store.prune(6), 2);
    assert_eq!(store.events_between(0, 10).len(), 1);
    assert_eq!(store.last_period_to(), None);
    assert_eq!(store.projects().len(), 1);
}

#[test]
fn projects_are_listed_by_name() {
    let mut store = Store::open_in_memory();
    store.upsert_project("/1", "б", 1).unwrap();
    store.upsert_project("/2", "a", 1).unwrap();
    store.upsert_project("/3", "Z", 1).unwrap();
    let names: Vec<String> = store.projects().into_iter().map(|p| p.name).collect();
    assert_eq!(names, vec!["Z", "a", "б"]);
}

#[test]
fn the_rules_of_the_tables_are_checked() {
    let mut store = Store::open_in_memory();
    let (a, _) = store.upsert_project("/r/a", "a", 1).unwrap();
    store.upsert_project("/r/b", "b", 1).unwrap();
    store.insert_event(a, "commit", 1, Some("x"), &Value::Null).unwrap();
    store.set_ref(a, "main", "x").unwrap();
    assert!(store.is_consistent());

    let mut copy = store.clone();
    copy.projects[1].path = "/r/a".into();
    assert!(!copy.is_consistent());
    let mut copy = store.clone();
    copy.events.push(StoredEvent {
        id: 9,
        project_id: a,
        kind: "commit".into(),
        seen_at: 1,
        sha: Some("x".into()),
        payload: Value::Null,
    });
    assert!(!copy.is_consistent());
    let mut copy = store.clone();
    copy.refs[0].project_id = 77;
    assert!(!copy.is_consistent());
    let mut copy = store.clone();
    copy.events[0].project_id = 77;
    assert!(!copy.is_consistent());
}

#[test]
fn a_payload_is_kept_as_its_text_is_read() {
    let mut store = Store::open_in_memory();
    let (id, _) = store.upsert_project("/r/a", "a", 1).unwrap();
    let mut deep = Value::Null;
    for _ in 0..200 {
        deep = Value::from(vec![deep]);
    }
    store.insert_event(id, "checkout", 5, None, &deep).unwrap();
    store.insert_event(id, "checkout", 6, None, &subject("x")).unwrap();
    let events = store.events_between(0, 9);
    assert_eq!(events[0].payload, Value::Null);
    assert_eq!(events[1].payload, subject("x"));
    store.insert_digest(0, 1, 1, &deep, "t").unwrap();
    store.insert_digest(1, 2, 2, &subject("y"), "t").unwrap();
    let digests = store.digests(false, -1);
    assert_eq!(digests[0].body, subject("y"));
    assert_eq!(digests[1].body, Value::Null);
}

#[test]
fn a_snapshot_is_empty_by_default() {
    assert_eq!(Snapshot::default(), Snapshot { head_branch: None, dirty_files: 0, dirty_sample: vec![] });
}
