use activity_mcp::digest::{
    can_sum, commits_word, digest_value, files_word, gather, plural, render, render_period, summarize,
    try_summarize, CommitBrief, Digest, Digester, Labels, ProjectDigest, Totals, Uncommitted,
};
use activity_mcp::json::{read_payload, write_payload};
use activity_mcp::store::{EventRow, ProjectRow, Store};
use activity_mcp::time::LAST_MOMENT;
use chrono::{Local, TimeZone};
use serde_json::Value;

fn object(fields: Vec<(&str, Value)>) -> Value {
    let mut map = serde_json::Map::new();
    for (key, value) in fields {
        map.insert(key.to_string(), value);
    }
    Value::Object(map)
}

fn event(project: &str, kind: &str, payload: Value) -> EventRow {
    EventRow {
        id: 0,
        project_id: 0,
        project: project.into(),
        kind: kind.into(),
        seen_at: 0,
        payload,
    }
}

fn commit(project: &str, sha: &str, author: &str, subject: &str) -> EventRow {
    event(
        project,
        "commit",
        object(vec![
            ("sha", sha.into()),
            ("branch", "main".into()),
            ("author", author.into()),
            ("subject", subject.into()),
            ("insertions", 10.into()),
            ("deletions", 2.into()),
        ]),
    )
}

fn project(name: &str, dirty: i64) -> ProjectRow {
    ProjectRow {
        id: 0,
        path: format!("/w/{name}"),
        name: name.into(),
        head_branch: Some("main".into()),
        dirty_files: dirty,
        dirty_sample: vec![],
        first_seen: 0,
        last_scanned: None,
        last_activity: None,
        removed_at: None,
    }
}

#[test]
fn plural_forms() {
    assert_eq!(plural(1, "коммит", "коммита", "коммитов"), "1 коммит");
    assert_eq!(plural(3, "коммит", "коммита", "коммитов"), "3 коммита");
    assert_eq!(plural(11, "коммит", "коммита", "коммитов"), "11 коммитов");
    assert_eq!(plural(21, "коммит", "коммита", "коммитов"), "21 коммит");
    assert_eq!(plural(14, "коммит", "коммита", "коммитов"), "14 коммитов");
}

#[test]
fn events_are_grouped_by_project() {
    let events = vec![
        commit("cli", "aaaaaaaaaa", "Egor", "Add parser"),
        commit("server", "bbbbbbbbbb", "Ann", "Fix auth"),
        commit("cli", "cccccccccc", "Ann", "Add tests"),
        event("cli", "branch_created", object(vec![("branch", "feature".into())])),
        event("new", "project_added", object(vec![])),
    ];
    let projects = vec![project("cli", 3), project("server", 0), project("idle", 2)];
    let digest = summarize(&events, &projects, 0, 100);
    assert_eq!(digest.totals, Totals { projects: 2, commits: 3, insertions: 30, deletions: 6 });
    assert_eq!(digest.projects[0].name, "cli");
    assert_eq!(digest.projects[0].authors, vec!["Egor", "Ann"]);
    assert_eq!(digest.projects[0].commits[0].sha, "aaaaaaa");
    assert_eq!(digest.projects[0].uncommitted_files, 3);
    assert_eq!(digest.added_projects, vec!["new"]);
    assert_eq!(digest.uncommitted_elsewhere, vec![Uncommitted { name: "idle".into(), files: 2 }]);

    let text = render(&digest, 0, 100);
    assert!(text.contains("2 проекта, 3 коммита, +30 −6"), "{text}");
    assert!(text.contains("### cli (main)"), "{text}");
    assert!(text.contains("`ccccccc` Add tests [main]"), "{text}");
    assert!(text.contains("новые ветки: feature"), "{text}");
    assert!(text.contains("незакоммичено: 3 файла"), "{text}");
    assert!(text.contains("idle (2 файла)"), "{text}");
}

#[test]
fn periods_follow_each_other_and_empty_ones_are_skipped() {
    let mut store = Store::open_in_memory();
    let digester = Digester::new();
    assert!(digester.build(&mut store, 100).unwrap().is_none());

    let (id, _) = store.upsert_project("/w/cli", "cli", 0).unwrap();
    let payload = object(vec![("sha", "a1".into()), ("author", "E".into())]);
    store.insert_event(id, "commit", 50, Some("a1"), &payload).unwrap();
    let first = digester.build(&mut store, 100).unwrap().expect("сводка");
    assert_eq!((first.period_from, first.period_to), (49, 100));
    assert!(first.text.contains("1 коммит"), "{}", first.text);

    assert!(digester.build(&mut store, 200).unwrap().is_none());
    let payload = object(vec![("sha", "b2".into()), ("author", "E".into())]);
    store.insert_event(id, "commit", 250, Some("b2"), &payload).unwrap();
    let second = digester.build(&mut store, 300).unwrap().expect("вторая сводка");
    // The empty period from 100 to 200 is part of the second digest.
    assert_eq!((second.period_from, second.period_to), (100, 300));
}

#[test]
fn every_plural_is_right() {
    assert_eq!(commits_word(0), "0 коммитов");
    assert_eq!(commits_word(2), "2 коммита");
    assert_eq!(commits_word(5), "5 коммитов");
    assert_eq!(commits_word(101), "101 коммит");
    assert_eq!(commits_word(111), "111 коммитов");
    assert_eq!(commits_word(112), "112 коммитов");
    assert_eq!(commits_word(122), "122 коммита");
    assert_eq!(files_word(-4), "0 файлов");
    assert_eq!(files_word(1), "1 файл");
    assert_eq!(files_word(24), "24 файла");
}

#[test]
fn a_digest_is_rendered_line_by_line() {
    let commits: Vec<CommitBrief> = (0..10)
        .map(|i| CommitBrief {
            sha: format!("sha{i}"),
            branch: "main".into(),
            author: "A".into(),
            subject: format!("S{i}"),
            insertions: 1,
            deletions: 0,
        })
        .collect();
    let digest = Digest {
        period_from: "f".into(),
        period_to: "t".into(),
        totals: Totals { projects: 1, commits: 10, insertions: 10, deletions: 0 },
        projects: vec![ProjectDigest {
            name: "p".into(),
            branch: Some("main".into()),
            commits,
            authors: vec!["A".into(), "B".into()],
            insertions: 10,
            deletions: 0,
            branches_created: vec!["x".into(), "y".into()],
            branches_deleted: vec!["z".into()],
            checkouts: vec!["x".into(), "main".into()],
            uncommitted_files: 1,
        }],
        added_projects: vec!["n".into()],
        removed_projects: vec!["o".into(), "q".into()],
        uncommitted_elsewhere: vec![Uncommitted { name: "u".into(), files: 5 }],
    };
    let expected = "## Активность 01.01 00:00 — 02.01 00:00\n\n\
        1 проект, 10 коммитов, +10 −0\n\
        \n### p (main)\n\
        - 10 коммитов, +10 −0; авторы: A, B\n  \
        - `sha9` S9 [main]\n  - `sha8` S8 [main]\n  - `sha7` S7 [main]\n  - `sha6` S6 [main]\n  \
        - `sha5` S5 [main]\n  - `sha4` S4 [main]\n  - `sha3` S3 [main]\n  - `sha2` S2 [main]\n  \
        - …и ещё 2\n\
        - новые ветки: x, y\n\
        - удалены ветки: z\n\
        - переключения на: x → main\n\
        - незакоммичено: 1 файл\n\
        \nНовые проекты: n\n\
        \nПропавшие проекты: o, q\n\
        \nНезакоммичено без новых событий: u (5 файлов)\n";
    assert_eq!(render_period(&digest, "01.01 00:00", "02.01 00:00"), expected);
}

#[test]
fn an_empty_period_is_an_empty_digest() {
    let digest = gather(&[], &[project("idle", 0)], "f".to_string(), "t".to_string());
    assert_eq!(digest.totals, Totals { projects: 0, commits: 0, insertions: 0, deletions: 0 });
    assert!(digest.projects.is_empty() && digest.uncommitted_elsewhere.is_empty());
    assert_eq!(render_period(&digest, "a", "b"), "## Активность a — b\n\n");
}

#[test]
fn the_busiest_project_comes_first_then_names_decide() {
    let events = vec![
        commit("b", "1", "A", "s"),
        commit("a", "2", "A", "s"),
        commit("c", "3", "A", "s"),
        commit("c", "4", "A", "s"),
        event("d", "checkout", object(vec![("from", "x".into()), ("to", "y".into())])),
        event("d", "branch_deleted", object(vec![("branch", "x".into())])),
        event("e", "unheard_of", object(vec![])),
        event("gone", "project_removed", object(vec![])),
    ];
    let digest = gather(&events, &[], "f".to_string(), "t".to_string());
    let names: Vec<&str> = digest.projects.iter().map(|p| p.name.as_str()).collect();
    assert_eq!(names, vec!["c", "a", "b", "d", "e"]);
    assert_eq!(digest.projects[3].checkouts, vec!["y"]);
    assert_eq!(digest.projects[3].branches_deleted, vec!["x"]);
    assert_eq!(digest.removed_projects, vec!["gone"]);
    assert_eq!(digest.totals.commits, 4);
}

#[test]
fn the_last_project_of_a_name_that_is_there_counts() {
    let mut gone = project("a", 9);
    gone.removed_at = Some(1);
    let mut second = project("a", 4);
    second.head_branch = None;
    let digest = gather(&[commit("a", "1", "A", "s")], &[project("a", 1), second, gone], "f".into(), "t".into());
    assert_eq!(digest.projects[0].uncommitted_files, 4);
    assert_eq!(digest.projects[0].branch, None);
}

#[test]
fn sums_that_cannot_be_held_make_no_digest() {
    let huge = event("a", "commit", object(vec![("insertions", u64::MAX.into())]));
    let events = vec![huge.clone(), commit("b", "1", "A", "s")];
    assert!(!can_sum(&events));
    assert!(try_summarize(&events, &[], 0, 1).is_none());
    assert!(can_sum(&[huge]));
    assert!(try_summarize(&[commit("b", "1", "A", "s")], &[], 0, 1).is_some());
}

#[test]
fn a_period_ends_where_the_local_calendar_ends() {
    let last = Local.timestamp_opt(LAST_MOMENT, 0).single().unwrap();
    let shown = try_summarize(&[], &[], 0, LAST_MOMENT);
    assert_eq!(shown.is_some(), last.offset().local_minus_utc() <= 0);
    assert!(try_summarize(&[], &[], 0, LAST_MOMENT - 86_400).is_some());
}

#[test]
fn a_project_with_any_event_is_no_reminder() {
    let events = vec![event("new", "project_added", object(vec![]))];
    let digest = summarize(&events, &[project("new", 2)], 0, 100);
    assert_eq!(digest.uncommitted_elsewhere, vec![]);
    assert!(digest.projects.is_empty());
    let events = vec![event("old", "project_removed", object(vec![]))];
    let digest = summarize(&events, &[project("old", 2), project("new", 1)], 0, 100);
    assert_eq!(digest.uncommitted_elsewhere, vec![Uncommitted { name: "new".into(), files: 1 }]);
}

#[test]
fn projects_may_interleave() {
    let a = |sha: &str| commit("a", sha, "A", "s");
    let b = |sha: &str| commit("b", sha, "B", "s");
    let added = || event("c", "project_added", object(vec![]));
    let projects = vec![project("a", 1), project("c", 2), project("d", 3)];
    let one = summarize(&[a("1"), a("2"), b("3"), b("4"), added()], &projects, 0, 1);
    let other = summarize(&[added(), b("3"), a("1"), b("4"), a("2")], &projects, 0, 1);
    assert_eq!(one, other);
    let names: Vec<&str> = other.projects.iter().map(|p| p.name.as_str()).collect();
    assert_eq!(names, vec!["a", "b"]);
    assert_eq!(other.uncommitted_elsewhere, vec![Uncommitted { name: "d".into(), files: 3 }]);
}

#[test]
fn a_digest_is_a_value() {
    let events = vec![commit("a", "aaaaaaaaaa", "A", "s")];
    let digest = gather(&events, &[project("a", 2), project("b", 1)], "f".into(), "t".into());
    let value = digest_value(&digest);
    assert_eq!(value["period_from"], Value::from("f"));
    assert_eq!(value["totals"]["commits"], Value::from(1));
    assert_eq!(value["projects"][0]["commits"][0]["sha"], Value::from("aaaaaaa"));
    assert_eq!(value["projects"][0]["branch"], Value::from("main"));
    assert_eq!(value["projects"][0]["uncommitted_files"], Value::from(2));
    assert_eq!(value["uncommitted_elsewhere"][0]["files"], Value::from(1));
    assert_eq!(value["added_projects"], Value::from(Vec::<String>::new()));
    assert_eq!(value.as_object().unwrap().len(), 7);
    assert_eq!(read_payload(&write_payload(&value)), value);
}

#[test]
fn a_composed_digest_is_kept_as_it_was_returned() {
    let mut store = Store::open_in_memory();
    let (id, _) = store.upsert_project("/w/a", "a", 0).unwrap();
    let payload = object(vec![("sha", "a1".into()), ("subject", "S".into())]);
    store.insert_event(id, "commit", 5, Some("a1"), &payload).unwrap();
    let labels = Labels {
        period_from: "F".into(),
        period_to: "T".into(),
        shown_from: "f".into(),
        shown_to: "t".into(),
    };
    let digester = Digester::new();
    assert_eq!(digester.due(&store, 10), Some(4));
    assert!(digester.can_build(&store, 10));
    let row = digester.compose(&mut store, 4, 10, &labels).unwrap();
    assert!(row.text.starts_with("## Активность f — t\n\n1 проект, 1 коммит, +0 −0\n"), "{}", row.text);
    assert_eq!(row.body["period_to"], Value::from("T"));
    assert_eq!(store.digests(true, 10), vec![row]);
    assert_eq!(digester.due(&store, 10), None);
    assert_eq!(digester.due(&store, 20), None);
}

#[test]
fn a_beginning_before_all_numbers_cannot_be_built() {
    let mut store = Store::open_in_memory();
    let (id, _) = store.upsert_project("/w/a", "a", 0).unwrap();
    store.insert_event(id, "checkout", i64::MIN, None, &object(vec![])).unwrap();
    assert!(!Digester::new().can_build(&store, 10));
}

#[test]
fn an_empty_digest_is_the_default() {
    assert_eq!(gather(&[], &[], String::new(), String::new()), Digest::default());
    assert_eq!(Totals::default(), Totals { projects: 0, commits: 0, insertions: 0, deletions: 0 });
    assert_eq!(ProjectDigest::default().commits, vec![]);
    assert_eq!(ProjectDigest::default().branch, None);
}
