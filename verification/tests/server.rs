use activity_mcp::server::{
    activity_ack, activity_build_digest, activity_changes, activity_digest, activity_projects, build_reply,
    can_show_digests, can_show_projects, changes_since, default_changes_limit,
    default_digest_limit, default_true, digests_for, internal, project_for, store_failure,
};
use activity_mcp::store::{Snapshot, Store, StoreError};
use activity_mcp::time::{rfc3339, LAST_MOMENT};
use chrono::{Local, TimeZone};
use serde_json::Value;

fn object(fields: Vec<(&str, Value)>) -> Value {
    let mut map = serde_json::Map::new();
    for (key, value) in fields {
        map.insert(key.to_string(), value);
    }
    Value::Object(map)
}

fn read(text: &str) -> Value {
    serde_json::from_str(text).unwrap()
}

fn some(text: &str) -> Option<String> {
    Some(text.to_string())
}

#[test]
fn defaults_are_what_they_are() {
    assert!(default_true());
    assert_eq!(default_digest_limit(), 5);
    assert_eq!(default_changes_limit(), 50);
    assert_eq!(internal("x"), "ошибка хранилища: x");
    assert_ne!(store_failure(StoreError::Full), store_failure(StoreError::UnknownProject));
}

#[test]
fn digests_are_served_and_acknowledged() {
    let mut store = Store::open_in_memory();
    let first = store.insert_digest(0, 10, 10, &Value::Null, "один").unwrap();
    let second = store.insert_digest(10, 20, 21, &Value::Null, "два").unwrap();
    let reply = read(&activity_digest(&store, true, 5).unwrap());
    assert_eq!(reply["digests"][0]["id"], Value::from(second));
    assert_eq!(reply["digests"][0]["period_from"], Value::from(rfc3339(10)));
    assert_eq!(reply["digests"][0]["period_to"], Value::from(rfc3339(20)));
    assert_eq!(reply["digests"][0]["created_at"], Value::from(rfc3339(21)));
    assert_eq!(reply["digests"][0]["acked"], Value::from(false));
    assert_eq!(reply["digests"][1]["text"], Value::from("один"));
    assert_eq!(activity_ack(&mut store, second, 30), Ok(format!("Digest {second} acknowledged")));
    assert_eq!(activity_ack(&mut store, 9999, 30), Err("сводки 9999 нет".to_string()));
    assert_eq!(activity_ack(&mut store, -1, 30), Err("сводки -1 нет".to_string()));
    let reply = read(&activity_digest(&store, true, 5).unwrap());
    assert_eq!(reply["digests"].as_array().unwrap().len(), 1);
    assert_eq!(reply["digests"][0]["id"], Value::from(first));
    let reply = read(&activity_digest(&store, false, 5).unwrap());
    assert_eq!(reply["digests"][0]["acked"], Value::from(true));
    // A limit of nothing still gives one.
    assert_eq!(digests_for(&store, false, 0).len(), 1);
    for i in 0..60 {
        store.insert_digest(i, i + 1, i, &Value::Null, "").unwrap();
    }
    assert_eq!(digests_for(&store, false, 1000).len(), 50);
    assert!(can_show_digests(&digests_for(&store, false, 1000)));
}

#[test]
fn projects_are_served() {
    let mut store = Store::open_in_memory();
    let (id, _) = store.upsert_project("/w/app", "app", 1).unwrap();
    let (gone, _) = store.upsert_project("/w/old", "old", 1).unwrap();
    store.mark_removed(gone, 2);
    let snapshot = Snapshot {
        head_branch: some("main"),
        dirty_files: 1,
        dirty_sample: vec!["?? wip.txt".to_string()],
    };
    store.save_snapshot(id, &snapshot, 3);
    store.insert_event(id, "commit", 7, None, &Value::Null).unwrap();
    assert!(can_show_projects(&store.projects()));
    let reply = read(&activity_projects(&store).unwrap());
    let app = &reply["projects"][0];
    assert_eq!(app["name"], Value::from("app"));
    assert_eq!(app["path"], Value::from("/w/app"));
    assert_eq!(app["branch"], Value::from("main"));
    assert_eq!(app["uncommitted_files"], Value::from(1));
    assert_eq!(app["uncommitted_sample"][0], Value::from("?? wip.txt"));
    assert_eq!(app["last_activity"], Value::from(rfc3339(7)));
    assert_eq!(app["removed"], Value::from(false));
    let old = &reply["projects"][1];
    assert!(old["branch"].is_null() && old["last_activity"].is_null());
    assert_eq!(old["removed"], Value::from(true));
}

#[test]
fn changes_are_served() {
    let mut store = Store::open_in_memory();
    let (id, _) = store.upsert_project("/w/app", "app", 1).unwrap();
    let (other, _) = store.upsert_project("/w/b", "b", 1).unwrap();
    let payload = object(vec![
        ("subject", "Add parser".into()),
        ("kind", "hidden".into()),
        ("project", "hidden".into()),
    ]);
    store.insert_event(id, "commit", 100_000, Some("a"), &payload).unwrap();
    store.insert_event(other, "checkout", 99_000, None, &Value::from(3)).unwrap();
    let now = 100_100;
    let reply = activity_changes(&store, &some("app"), &some("1h"), 50, now).unwrap().unwrap();
    let reply = read(&reply);
    assert_eq!(reply["since"], Value::from(rfc3339(now - 3600)));
    assert_eq!(reply["changes"].as_array().unwrap().len(), 1);
    assert_eq!(reply["changes"][0]["kind"], Value::from("commit"));
    assert_eq!(reply["changes"][0]["project"], Value::from("app"));
    assert_eq!(reply["changes"][0]["subject"], Value::from("Add parser"));
    assert_eq!(reply["changes"][0]["seen_at"], Value::from(rfc3339(100_000)));

    let reply = read(&activity_changes(&store, &some("  "), &None, 50, now).unwrap().unwrap());
    assert_eq!(reply["since"], Value::from(rfc3339(now - 7 * 86_400)));
    assert_eq!(reply["changes"].as_array().unwrap().len(), 2);
    assert_eq!(reply["changes"][1].as_object().unwrap().len(), 3);
    let reply = read(&activity_changes(&store, &None, &None, 0, now).unwrap().unwrap());
    assert_eq!(reply["changes"].as_array().unwrap().len(), 1);
}

#[test]
fn what_is_wrong_with_a_question_is_told() {
    let store = Store::open_in_memory();
    assert_eq!(
        activity_changes(&store, &some(" нет-такого "), &None, 50, 0),
        Some(Err("проект «нет-такого» не найден: список — activity_projects".to_string()))
    );
    // The beginning is looked at first.
    assert_eq!(
        activity_changes(&store, &some("нет-такого"), &some("вчера"), 50, 0),
        Some(Err("не разобрано «вчера»: ожидается 24h, 7d, 2026-09-01 или 2026-09-01T09:00:00+03:00".to_string()))
    );
    assert_eq!(activity_changes(&store, &None, &some("9223372036854775807s"), 50, -2), None);
    assert_eq!(project_for(&store, &None), Ok(None));
    assert!(changes_since(&store, None, 0, 5).unwrap().contains("\"changes\": []"));
}

#[test]
fn changes_are_served_where_the_local_calendar_has_them() {
    let mut store = Store::open_in_memory();
    let last = Local.timestamp_opt(LAST_MOMENT, 0).single().unwrap().offset().local_minus_utc() <= 0;
    assert_eq!(activity_changes(&store, &None, &some("0s"), 50, LAST_MOMENT).is_some(), last);
    let (id, _) = store.upsert_project("/w/app", "app", 1).unwrap();
    store.insert_event(id, "checkout", 5, None, &Value::Null).unwrap();
    assert!(changes_since(&store, None, 0, 5).is_some());
    store.insert_event(id, "checkout", LAST_MOMENT, None, &Value::Null).unwrap();
    assert_eq!(changes_since(&store, None, 0, 5).is_some(), last);
}

#[test]
fn a_digest_is_built_on_demand() {
    let mut store = Store::open_in_memory();
    let reply = read(&activity_build_digest(&mut store, 100).unwrap());
    assert!(reply["digest"].is_null());
    assert_eq!(reply["note"], Value::from("no changes since the previous digest"));
    assert_eq!(build_reply(&None), activity_build_digest(&mut store, 100).unwrap());

    let (id, _) = store.upsert_project("/w/app", "app", 1).unwrap();
    let snapshot = Snapshot { head_branch: some("main"), dirty_files: 0, dirty_sample: vec![] };
    store.save_snapshot(id, &snapshot, 3);
    let payload = object(vec![("sha", "aaaaaaaaaa".into()), ("subject", "Add parser".into())]);
    store.insert_event(id, "commit", 50, Some("aaaaaaaaaa"), &payload).unwrap();
    let reply = read(&activity_build_digest(&mut store, 100).unwrap());
    let text = reply["digest"]["text"].as_str().unwrap();
    assert!(text.contains("### app (main)"), "{text}");
    assert!(text.contains("Add parser"), "{text}");
    assert_eq!(store.last_period_to(), Some(100));
    store.digests[0].id = i64::MAX;
    store.insert_event(id, "commit", 150, Some("b"), &payload).unwrap();
    assert_eq!(
        activity_build_digest(&mut store, 200),
        Err(internal(&store_failure(StoreError::Full)))
    );
}
