use activity_mcp::collector::{
    commit_value, plan, record_branches, scan_counted, scan_project, Answers, Collector, ScanError,
};
use activity_mcp::digest::{summarize, Totals};
use activity_mcp::discovery::{Found, Walker};
use activity_mcp::git::Commit;
use activity_mcp::store::{Store, StoreError};
use activity_mcp::json::{read_payload, write_payload};
use serde_json::Value;

fn commit(sha: &str, subject: &str) -> Commit {
    Commit {
        sha: sha.into(),
        author: "Test".into(),
        email: "test@example.com".into(),
        committed_at: 5,
        subject: subject.into(),
        files_changed: 1,
        insertions: 2,
        deletions: 1,
        files: vec!["a.txt".into()],
    }
}

fn pairs(list: &[(&str, &str)]) -> Vec<(String, String)> {
    list.iter().map(|(a, b)| (a.to_string(), b.to_string())).collect()
}

fn answers(heads: &[(&str, &str)], logs: Vec<Result<Vec<Commit>, String>>, branch: &str, dirty: &[&str]) -> Answers {
    Answers {
        heads: Ok(pairs(heads)),
        logs,
        head_branch: Some(branch.to_string()),
        dirty: Ok((dirty.len(), dirty.iter().map(|d| d.to_string()).collect())),
    }
}

fn found(list: &[(&str, &str)]) -> Vec<Found> {
    list.iter().map(|(path, name)| Found { path: path.to_string(), name: name.to_string() }).collect()
}

fn kinds(store: &Store) -> Vec<String> {
    store.events_between(0, i64::MAX).into_iter().map(|event| event.kind).collect()
}

fn collector() -> Collector {
    Collector::new(Walker::new(2, &[]), vec!["/w".to_string()])
}

#[test]
fn history_before_first_scan_is_baseline_only() {
    let mut store = Store::open_in_memory();
    let mut collector = collector();
    assert_eq!(collector.discover(&mut store, &found(&[("/w/app", "app")]), 100), Ok(0));
    let (path, id) = collector.index[0].clone();
    let first = answers(&[("main", "s2")], vec![], "main", &[]);
    assert!(plan(&store, id, &path, &pairs(&[("main", "s2")])).is_empty());
    assert_eq!(scan_project(&mut store, id, &path, 100, &first), Ok(0));
    assert!(kinds(&store).is_empty());
    let project = &store.active_projects()[0];
    assert_eq!(project.name, "app");
    assert_eq!(project.head_branch.as_deref(), Some("main"));
    assert_eq!(store.refs(id)[0].sha, "s2");
}

#[test]
fn commits_branches_and_checkouts_become_events() {
    let mut store = Store::open_in_memory();
    let mut collector = collector();
    collector.discover(&mut store, &found(&[("/w/app", "app")]), 100).unwrap();
    let affected = collector.affected(&vec!["/w/app/a.txt".to_string()]);
    assert!(!affected.rediscover);
    assert_eq!(affected.projects.len(), 1);
    let (path, id) = affected.projects[0].clone();
    scan_project(&mut store, id, &path, 100, &answers(&[("main", "s1")], vec![], "main", &[])).unwrap();

    let heads = [("feature", "s3"), ("main", "s2")];
    let steps = plan(&store, id, &path, &pairs(&heads));
    assert_eq!(steps.len(), 2);
    assert_eq!((steps[0].branch.as_str(), steps[0].created), ("main", false));
    assert_eq!(steps[0].exclude, vec!["s1"]);
    assert_eq!((steps[1].branch.as_str(), steps[1].created), ("feature", true));
    assert_eq!(steps[1].exclude, vec!["s1", "s2"]);
    let logs = vec![Ok(vec![commit("s2", "Add a")]), Ok(vec![commit("s3", "Add b")])];
    let events = scan_project(&mut store, id, &path, 200, &answers(&heads, logs, "feature", &["?? wip.txt"])).unwrap();
    assert_eq!(events, 4, "{:?}", kinds(&store));
    assert_eq!(kinds(&store), vec!["commit", "branch_created", "commit", "checkout"]);
    let branches: Vec<String> = store
        .events_between(0, i64::MAX)
        .into_iter()
        .filter(|event| event.kind == "commit")
        .map(|event| format!("{}:{}", event.payload["branch"].as_str().unwrap(), event.payload["subject"].as_str().unwrap()))
        .collect();
    assert_eq!(branches, vec!["main:Add a", "feature:Add b"]);
    let project = &store.active_projects()[0];
    assert_eq!(project.dirty_files, 1);
    assert_eq!(project.dirty_sample, vec!["?? wip.txt"]);

    // A merge does not repeat a commit that was counted in its branch.
    let heads = [("main", "s3")];
    assert_eq!(plan(&store, id, &path, &pairs(&heads)).len(), 1);
    let logs = vec![Ok(vec![commit("s3", "Add b")])];
    scan_project(&mut store, id, &path, 300, &answers(&heads, logs, "main", &[])).unwrap();
    let later: Vec<String> = store.events_between(200, 300).into_iter().map(|event| event.kind).collect();
    assert_eq!(later, vec!["branch_deleted", "checkout"]);
}

#[test]
fn new_and_removed_projects_are_reported_after_first_run() {
    let mut store = Store::open_in_memory();
    let mut collector = collector();
    collector.discover(&mut store, &found(&[("/w/one", "one")]), 100).unwrap();

    let affected = collector.affected(&vec!["/w/two/.git/HEAD".to_string()]);
    assert!(affected.rediscover);
    assert!(affected.projects.is_empty());
    assert_eq!(collector.discover(&mut store, &found(&[("/w/one", "one"), ("/w/two", "two")]), 200), Ok(1));
    assert_eq!(collector.discover(&mut store, &found(&[("/w/two", "two")]), 300), Ok(1));
    assert_eq!(kinds(&store), vec!["project_added", "project_removed"]);
    let names: Vec<String> = store.active_projects().into_iter().map(|p| p.name).collect();
    assert_eq!(names, vec!["two"]);
    assert_eq!(collector.index.len(), 1);
    assert_eq!(store.events_between(0, 400)[1].payload["path"], Value::from("/w/one"));
}

#[test]
fn a_second_scan_of_the_same_repository_repeats_nothing() {
    let mut store = Store::open_in_memory();
    let (id, _) = store.upsert_project("/w/app", "app", 1).unwrap();
    scan_project(&mut store, id, "/w/app", 1, &answers(&[("main", "s1")], vec![], "main", &[])).unwrap();
    let heads = [("main", "s2"), ("dev", "s9")];
    let logs = vec![Ok(vec![commit("s2", "B"), commit("s1b", "A")]), Ok(vec![])];
    assert_eq!(scan_project(&mut store, id, "/w/app", 2, &answers(&heads, logs, "main", &[])), Ok(3));
    let subjects: Vec<Value> =
        store.events_between(0, 9).iter().map(|e| e.payload["subject"].clone()).filter(|s| !s.is_null()).collect();
    assert_eq!(subjects, vec![Value::from("A"), Value::from("B")]);
    assert!(plan(&store, id, "/w/app", &pairs(&heads)).is_empty());
    assert_eq!(scan_project(&mut store, id, "/w/app", 3, &answers(&heads, vec![], "main", &[])), Ok(0));
}

#[test]
fn what_was_written_before_a_failure_stays() {
    let mut store = Store::open_in_memory();
    let (id, _) = store.upsert_project("/w/app", "app", 1).unwrap();
    scan_project(&mut store, id, "/w/app", 1, &answers(&[("main", "s1")], vec![], "main", &[])).unwrap();
    let heads = [("main", "s2"), ("dev", "s9")];
    let logs = vec![Ok(vec![commit("s2", "B")]), Err("нет объекта".to_string())];
    let mut given = answers(&heads, logs, "dev", &[]);
    assert_eq!(
        scan_project(&mut store, id, "/w/app", 2, &given),
        Err(ScanError::Git("нет объекта".to_string()))
    );
    assert_eq!(kinds(&store), vec!["commit", "branch_created"]);
    assert_eq!(store.refs(id).len(), 1);
    assert_eq!(store.refs(id)[0].sha, "s2");
    assert_eq!(store.projects()[0].last_scanned, Some(1));

    given.logs = vec![Ok(vec![commit("s9", "C")])];
    given.dirty = Err("нет индекса".to_string());
    assert_eq!(
        scan_project(&mut store, id, "/w/app", 3, &given),
        Err(ScanError::Git("нет индекса".to_string()))
    );
    assert_eq!(kinds(&store), vec!["commit", "branch_created", "branch_created", "commit", "checkout"]);
    given.heads = Err("не репозиторий".to_string());
    assert_eq!(
        scan_project(&mut store, id, "/w/app", 4, &given),
        Err(ScanError::Git("не репозиторий".to_string()))
    );
}

#[test]
fn events_before_a_failure_are_counted() {
    let mut store = Store::open_in_memory();
    let (id, _) = store.upsert_project("/w/app", "app", 1).unwrap();
    scan_project(&mut store, id, "/w/app", 1, &answers(&[("main", "s1")], vec![], "main", &[])).unwrap();
    let heads = [("main", "s2"), ("dev", "s9")];
    let logs = vec![Ok(vec![commit("s2", "B")]), Err("нет объекта".to_string())];
    assert_eq!(
        scan_counted(&mut store, id, "/w/app", 2, &answers(&heads, logs, "main", &[])),
        (2, Err(ScanError::Git("нет объекта".to_string())))
    );
    let logs = vec![Ok(vec![commit("s9", "C")])];
    assert_eq!(scan_counted(&mut store, id, "/w/app", 3, &answers(&heads, logs, "main", &[])), (2, Ok(())));
    assert_eq!(store.events_between(0, 9).len(), 4);
    assert_eq!(
        record_branches(&mut store, id, 4, &pairs(&[("main", "s3")]), &vec![Ok(vec![commit("s3", "D")])]),
        Ok(2)
    );
}

#[test]
fn a_scan_of_an_unknown_project_fails() {
    let mut store = Store::open_in_memory();
    assert_eq!(
        scan_project(&mut store, 5, "/w/x", 1, &answers(&[("main", "s1")], vec![], "main", &[])),
        Err(ScanError::Store(StoreError::UnknownProject))
    );
    assert_eq!(
        record_branches(&mut store, 5, 1, &pairs(&[("main", "s1")]), &vec![Ok(vec![])]),
        Err(ScanError::Store(StoreError::UnknownProject))
    );
}

#[test]
fn a_digest_counts_what_a_scan_wrote() {
    let mut store = Store::open_in_memory();
    let (id, _) = store.upsert_project("/w/app", "app", 1).unwrap();
    scan_project(&mut store, id, "/w/app", 1, &answers(&[("main", "s1")], vec![], "main", &[])).unwrap();
    let logs = vec![Ok(vec![commit("s2222222222", "B")])];
    scan_project(&mut store, id, "/w/app", 2, &answers(&[("main", "s2222222222")], logs, "main", &[])).unwrap();
    let digest = summarize(&store.events_between(1, 2), &store.projects(), 1, 2);
    assert_eq!(digest.totals, Totals { projects: 1, commits: 1, insertions: 2, deletions: 1 });
    assert_eq!(digest.projects[0].commits[0].sha, "s222222");
    assert_eq!(digest.projects[0].commits[0].branch, "main");
    assert_eq!(digest.projects[0].authors, vec!["Test"]);
}

#[test]
fn the_payload_of_a_commit_survives_its_text() {
    let value = commit_value(&commit("s1", "Тема \"x\""), "main");
    assert_eq!(value["files"][0], Value::from("a.txt"));
    assert_eq!(value["committed_at"], Value::from(5));
    assert_eq!(value["files_changed"], Value::from(1));
    assert_eq!(value["email"], Value::from("test@example.com"));
    assert_eq!(value.as_object().unwrap().len(), 10);
    assert_eq!(read_payload(&write_payload(&value)), value);
}

#[test]
fn a_nested_project_is_scanned_for_its_own_changes() {
    let mut store = Store::open_in_memory();
    let mut collector = collector();
    collector.discover(&mut store, &found(&[("/w/a", "a"), ("/w/a/sub", "a/sub")]), 1).unwrap();
    let touched = collector.affected(&vec!["/w/a/sub/x".to_string(), "/elsewhere/x".to_string()]);
    assert_eq!(touched.projects, vec![("/w/a/sub".to_string(), 2)]);
    assert!(!touched.rediscover);
    assert_eq!(collector.roots(), &["/w".to_string()]);
    assert_eq!(collector.walker().max_depth, 2);
    // A project that was gone is an event when it comes back.
    collector.discover(&mut store, &found(&[]), 2).unwrap();
    assert_eq!(store.active_projects().len(), 0);
    assert_eq!(collector.discover(&mut store, &found(&[("/w/a/", "a")]), 3), Ok(1));
}
