use activity_mcp::daemon::{
    can_prune, health, prune_before, read_token, require_token, schedule_step, sickness, sleep_before, Action, Event,
    Pending, Step, Turn,
};
use activity_mcp::discovery::Walker;
use serde_json::Value;
use std::time::Duration;

fn changed(path: &str) -> Event {
    Event::Changed(path.to_string())
}

#[test]
fn relevant_changes_are_gathered_once() {
    let walker = Walker::new(2, &[]);
    let mut pending = Pending::new();
    assert_eq!(pending.on_event(&walker, Event::Debounce), Action::Wait);
    assert_eq!(pending.on_event(&walker, changed("/w/a/x")), Action::Wait);
    assert_eq!(pending.on_event(&walker, changed("/w/a/target/x")), Action::Wait);
    assert_eq!(pending.on_event(&walker, changed("/w/b/y")), Action::Wait);
    assert_eq!(pending.on_event(&walker, changed("/w/a/x")), Action::Wait);
    assert_eq!(pending.on_event(&walker, Event::Rescan), Action::RescanAll);
    assert_eq!(
        pending.on_event(&walker, Event::Debounce),
        Action::ScanPaths(vec!["/w/a/x".to_string(), "/w/b/y".to_string()])
    );
    assert_eq!(pending.on_event(&walker, Event::Debounce), Action::Wait);
}

#[test]
fn the_scheduler_sleeps_in_portions() {
    assert_eq!(sleep_before(1000, 100), Some(60));
    assert_eq!(sleep_before(160, 100), Some(60));
    assert_eq!(sleep_before(159, 100), Some(59));
    assert_eq!(sleep_before(100, 100), None);
    assert_eq!(sleep_before(99, 100), None);
    assert_eq!(sleep_before(i64::MAX, i64::MIN), Some(60));
}

#[test]
fn old_rows_are_dropped_after_the_retention() {
    let day = Duration::from_millis(86_400_999);
    assert!(can_prune(100_000, &day));
    assert_eq!(prune_before(100_000, &day), 13_600);
    assert!(!can_prune(i64::MIN, &day));
    // A duration beyond the signed numbers counts as the negative one with the same bits.
    assert_eq!(prune_before(0, &Duration::from_secs(u64::MAX)), 1);
}

#[test]
fn requests_need_the_token() {
    let token = Some("test-token".to_string());
    let header = |value: &str| Some(value.to_string());
    assert!(require_token(&None, &None));
    assert!(require_token(&token, &header("Bearer test-token")));
    assert!(!require_token(&token, &header("Bearer wrong")));
    assert!(!require_token(&token, &header("bearer test-token")));
    assert!(!require_token(&token, &header("test-token")));
    assert!(!require_token(&token, &header("Bearer test-token ")));
    assert!(!require_token(&token, &None));
    assert_eq!(read_token(" secret\n"), Some("secret".to_string()));
    assert_eq!(read_token(" \n"), None);
}

#[test]
fn health_is_told() {
    let value = health(1, &vec!["/w".to_string()], "0 9 * * *", None);
    assert_eq!(value["status"], Value::from("ok"));
    assert_eq!(value["projects"], Value::from(1));
    assert_eq!(value["roots"][0], Value::from("/w"));
    assert_eq!(value["schedule"], Value::from("0 9 * * *"));
    assert!(value["next_digest"].is_null());
    let value = health(0, &vec![], "", Some(0));
    assert_eq!(value["next_digest"], Value::from(activity_mcp::time::rfc3339(0)));
    let value = sickness("нет базы");
    assert_eq!(value["status"], Value::from("error"));
    assert_eq!(value["error"], Value::from("нет базы"));
}

#[test]
fn the_schedule_goes_on_step_by_step() {
    assert_eq!(schedule_step(Turn::Started { missed: true }), Step::Make);
    assert_eq!(schedule_step(Turn::Started { missed: false }), Step::Plan);
    assert_eq!(schedule_step(Turn::Made), Step::Plan);
    assert_eq!(schedule_step(Turn::Planned(Some(7))), Step::Await { next: 7 });
    assert_eq!(schedule_step(Turn::Planned(None)), Step::Stop);
    assert_eq!(schedule_step(Turn::Waited { next: 100, now: 30 }), Step::Sleep { next: 100, secs: 60 });
    assert_eq!(schedule_step(Turn::Waited { next: 100, now: 99 }), Step::Sleep { next: 100, secs: 1 });
    assert_eq!(schedule_step(Turn::Waited { next: 100, now: 100 }), Step::Make);
}
