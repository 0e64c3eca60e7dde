//! What holds of the journal across operations.

use crate::json;
use crate::json::Json;
use crate::order;
use crate::store;
use crate::store::{
    DigestRowModel, EventModel, ProjectModel, RefModel, SnapshotModel, StoreError, StoreModel,
    StoredModel,
};
use crate::text;
use vstd::prelude::*;

verus! {

/// Replacing a project by one of the same identifier and path leaves every
/// project where it was.
proof fn lemma_replaced(s: StoreModel, i: int, p: ProjectModel)
    requires
        s.wf(),
        0 <= i < s.projects.len(),
        p.id == s.projects[i].id,
        p.path == s.projects[i].path,
    ensures
        order::position(s.set_project(i, p).projects, store::with_id(p.id)) == Some(i),
        order::position(s.set_project(i, p).projects, store::with_path(p.path)) == Some(i),
{
    let t = s.set_project(i, p);
    assert forall|j: int| 0 <= j < i implies !(store::with_id(p.id))(#[trigger] t.projects[j])
        && !(store::with_path(p.path))(t.projects[j]) by {
        assert((store::other_project())(s.projects[j], s.projects[i]));
    }
    order::lemma_position_is(t.projects, store::with_id(p.id), i);
    order::lemma_position_is(t.projects, store::with_path(p.path), i);
}

/// A project that is gone comes back under its identifier as a new one, once.
pub proof fn project_returns_after_removal_as_new(
    s: StoreModel,
    path: Seq<char>,
    name: Seq<char>,
    id: int,
    gone: i64,
    back: i64,
    later: i64,
)
    requires
        s.wf(),
        exists|i: int|
            0 <= i < s.projects.len() && (#[trigger] s.projects[i]).path == path
                && s.projects[i].id == id,
    ensures
        ({
            let (returned, first) = s.mark_removed(id, gone).upsert_project(path, name, back);
            &&& first == Ok::<(int, bool), StoreError>((id, true))
            &&& returned.upsert_project(path, name, later) == (
                returned,
                Ok::<(int, bool), StoreError>((id, false)),
            )
        }),
{
    let i = choose|i: int|
        0 <= i < s.projects.len() && (#[trigger] s.projects[i]).path == path && s.projects[i].id
            == id;
    lemma_replaced(s, i, s.projects[i]);
    assert(s.set_project(i, s.projects[i]).projects =~= s.projects);
    let gone_store = s.mark_removed(id, gone);
    if s.projects[i].removed_at is None {
        lemma_replaced(s, i, ProjectModel { removed_at: Some(gone), ..s.projects[i] });
    }
    let p = gone_store.projects[i];
    assert(p.removed_at is Some);
    let returned = gone_store.upsert_project(path, name, back).0;
    let q = ProjectModel { removed_at: None, name, ..p };
    assert(returned =~= gone_store.set_project(i, q));
    assert(returned =~= s.set_project(i, q));
    lemma_replaced(s, i, q);
}

/// A commit is written once for each project: whatever became of the first
/// attempt, if it did not fail, the next one changes nothing.
pub proof fn commit_is_recorded_once(
    s: StoreModel,
    project_id: int,
    sha: Seq<char>,
    kind: Seq<char>,
    seen_at: i64,
    payload: Json,
    other_kind: Seq<char>,
    other_seen_at: i64,
    other_payload: Json,
)
    requires
        s.wf(),
        s.insert_event(project_id, kind, seen_at, Some(sha), payload).1 is Ok,
    ensures
        ({
            let first = s.insert_event(project_id, kind, seen_at, Some(sha), payload).0;
            first.insert_event(project_id, other_kind, other_seen_at, Some(sha), other_payload) == (
                first,
                Ok::<bool, StoreError>(false),
            )
        }),
{
    let first = s.insert_event(project_id, kind, seen_at, Some(sha), payload).0;
    order::lemma_position(s.projects, store::with_id(project_id));
    let i = order::position(s.projects, store::with_id(project_id))->Some_0;
    if order::position(s.events, store::is_about(project_id, sha)) is None {
        let p = ProjectModel {
            last_activity: Some(store::later(s.projects[i].last_activity, seen_at)),
            ..s.projects[i]
        };
        assert(first.projects == s.set_project(i, p).projects);
        lemma_replaced(s, i, p);
        order::lemma_position(s.events, store::is_about(project_id, sha));
        assert(first.events.drop_last() =~= s.events);
        order::lemma_position(first.events, store::is_about(project_id, sha));
        assert((store::is_about(project_id, sha))(first.events.last()));
    }
}

/// Events without a commit are never passed over.
pub proof fn events_without_a_commit_are_not_unique(
    s: StoreModel,
    project_id: int,
    kind: Seq<char>,
    seen_at: i64,
    payload: Json,
)
    requires
        s.knows(project_id),
        store::next_id(store::event_ids(s.events)) <= i64::MAX,
    ensures
        s.insert_event(project_id, kind, seen_at, None, payload).1 == Ok::<bool, StoreError>(true),
{
}

/// A period holds exactly the events seen in it, each with the name of its
/// project, oldest first.
pub proof fn a_period_holds_its_events(s: StoreModel, from: int, to: int)
    ensures
        forall|e: EventModel| #[trigger]
            s.events_between(from, to).contains(e) <==> exists|i: int|
                0 <= i < s.events.len() && from < (#[trigger] s.events[i]).seen_at <= to && e
                    == s.joined(s.events[i]),
        order::in_order(s.events_between(from, to), store::oldest_first()),
{
    let kept = s.events.filter(store::seen_between(from, to));
    let rows = s.joined_all(kept);
    order::sorted_is_permutation(rows, store::oldest_first());
    order::sorted_is_in_order(rows, store::oldest_first());
    order::lemma_filter_contains(s.events, store::seen_between(from, to));
    assert forall|e: EventModel| #[trigger]
        s.events_between(from, to).contains(e) <==> exists|i: int|
            0 <= i < s.events.len() && from < (#[trigger] s.events[i]).seen_at <= to && e
                == s.joined(s.events[i]) by {
        if s.events_between(from, to).contains(e) {
            assert(rows.contains(e));
            let k = choose|k: int| 0 <= k < rows.len() && rows[k] == e;
            assert(kept.contains(kept[k]));
            let i = choose|i: int| 0 <= i < s.events.len() && s.events[i] == kept[k];
            assert(e == s.joined(s.events[i]));
        }
        if exists|i: int|
            0 <= i < s.events.len() && from < (#[trigger] s.events[i]).seen_at <= to && e
                == s.joined(s.events[i]) {
            let i = choose|i: int|
                0 <= i < s.events.len() && from < (#[trigger] s.events[i]).seen_at <= to && e
                    == s.joined(s.events[i]);
            assert(s.events.contains(s.events[i]));
            assert(kept.contains(s.events[i]));
            let k = choose|k: int| 0 <= k < kept.len() && kept[k] == s.events[i];
            assert(rows[k] == e);
            assert(rows.contains(e));
        }
    }
}

/// Adjoining periods share no event, and together hold what the whole period
/// holds.
pub proof fn adjoining_periods_lose_no_event(s: StoreModel, from: int, middle: int, to: int)
    requires
        s.wf(),
        from <= middle <= to,
    ensures
        forall|e: EventModel| #[trigger]
            s.events_between(from, to).contains(e) <==> s.events_between(from, middle).contains(e)
                || s.events_between(middle, to).contains(e),
        forall|e: EventModel|
            !(#[trigger] s.events_between(from, middle).contains(e) && s.events_between(
                middle,
                to,
            ).contains(e)),
{
    a_period_holds_its_events(s, from, to);
    a_period_holds_its_events(s, from, middle);
    a_period_holds_its_events(s, middle, to);
}

/// An event that was written is read back in every period it falls into, with
/// what a column keeps of its payload: the payload itself where it is kept.
pub proof fn a_written_event_is_read_back(
    s: StoreModel,
    project_id: int,
    kind: Seq<char>,
    seen_at: i64,
    sha: Option<Seq<char>>,
    payload: Json,
    from: int,
    to: int,
)
    requires
        s.wf(),
        s.insert_event(project_id, kind, seen_at, sha, payload).1 == Ok::<bool, StoreError>(true),
        from < seen_at <= to,
    ensures
        ({
            let t = s.insert_event(project_id, kind, seen_at, sha, payload).0;
            exists|k: int|
                0 <= k < t.events_between(from, to).len() && ({
                    let e = #[trigger] t.events_between(from, to)[k];
                    &&& e.project_id == project_id
                    &&& e.project == s.name_of(project_id)
                    &&& e.kind == kind
                    &&& e.seen_at == seen_at
                    &&& e.payload == json::kept(payload)
                    &&& json::is_kept(payload) ==> e.payload == payload
                })
        }),
{
    let t = s.insert_event(project_id, kind, seen_at, sha, payload).0;
    let last = t.events.len() - 1;
    a_period_holds_its_events(t, from, to);
    order::lemma_position(s.projects, store::with_id(project_id));
    let i = order::position(s.projects, store::with_id(project_id))->Some_0;
    let p = ProjectModel {
        last_activity: Some(store::later(s.projects[i].last_activity, seen_at)),
        ..s.projects[i]
    };
    assert(t.projects == s.set_project(i, p).projects);
    lemma_replaced(s, i, p);
    let e = t.joined(t.events[last]);
    assert(from < t.events[last].seen_at <= to);
    assert(t.events_between(from, to).contains(e));
    let k = choose|k: int|
        0 <= k < t.events_between(from, to).len() && t.events_between(from, to)[k] == e;
    assert(t.events_between(from, to)[k] == e);
}

/// The earliest event is one of the events, and none was seen before it.
pub proof fn earliest_event_is_least(s: StoreModel)
    ensures
        s.earliest_event() is None <==> s.events.len() == 0,
        s.earliest_event() matches Some(t) ==> {
            &&& exists|i: int| 0 <= i < s.events.len() && (#[trigger] s.events[i]).seen_at == t
            &&& forall|i: int| 0 <= i < s.events.len() ==> t <= (#[trigger] s.events[i]).seen_at
        },
{
    lemma_least(s.events);
}

proof fn lemma_least(events: Seq<StoredModel>)
    ensures
        store::least(events) is None <==> events.len() == 0,
        store::least(events) matches Some(t) ==> {
            &&& exists|i: int| 0 <= i < events.len() && (#[trigger] events[i]).seen_at == t
            &&& forall|i: int| 0 <= i < events.len() ==> t <= (#[trigger] events[i]).seen_at
        },
    decreases events.len(),
{
    if events.len() > 0 {
        let rest = events.drop_last();
        lemma_least(rest);
        let t = store::least(events)->Some_0;
        if t == events.last().seen_at {
            assert(events[events.len() - 1].seen_at == t);
        } else {
            let i = choose|i: int| 0 <= i < rest.len() && (#[trigger] rest[i]).seen_at == t;
            assert(events[i].seen_at == t);
        }
        assert forall|i: int| 0 <= i < events.len() implies t <= (#[trigger] events[i]).seen_at by {
            if i < rest.len() {
                assert(rest[i] == events[i]);
            }
        }
    }
}

/// The last period's end is the end of one of the digests' periods, and none
/// ended after it.
pub proof fn last_period_is_greatest(s: StoreModel)
    ensures
        s.last_period_to() is None <==> s.digests.len() == 0,
        s.last_period_to() matches Some(t) ==> {
            &&& exists|i: int| 0 <= i < s.digests.len() && (#[trigger] s.digests[i]).period_to == t
            &&& forall|i: int| 0 <= i < s.digests.len() ==> (#[trigger] s.digests[i]).period_to <= t
        },
{
    lemma_greatest(s.digests);
}

proof fn lemma_greatest(digests: Seq<DigestRowModel>)
    ensures
        store::greatest(digests) is None <==> digests.len() == 0,
        store::greatest(digests) matches Some(t) ==> {
            &&& exists|i: int| 0 <= i < digests.len() && (#[trigger] digests[i]).period_to == t
            &&& forall|i: int| 0 <= i < digests.len() ==> (#[trigger] digests[i]).period_to <= t
        },
    decreases digests.len(),
{
    if digests.len() > 0 {
        let rest = digests.drop_last();
        lemma_greatest(rest);
        let t = store::greatest(digests)->Some_0;
        if t == digests.last().period_to {
            assert(digests[digests.len() - 1].period_to == t);
        } else {
            let i = choose|i: int| 0 <= i < rest.len() && (#[trigger] rest[i]).period_to == t;
            assert(digests[i].period_to == t);
        }
        assert forall|i: int| 0 <= i < digests.len() implies (#[trigger] digests[i]).period_to
            <= t by {
            if i < rest.len() {
                assert(rest[i] == digests[i]);
            }
        }
    }
}

/// A list of digests without a limit holds exactly the wanted ones, latest
/// period first.
pub proof fn digests_are_listed(s: StoreModel, unread_only: bool)
    ensures
        forall|d: DigestRowModel| #[trigger]
            s.digest_list(unread_only, -1).contains(d) <==> s.digests.contains(d) && (unread_only
                ==> d.acked_at is None),
        order::in_order(s.digest_list(unread_only, -1), store::latest_first()),
{
    let kept = s.digests.filter(store::is_wanted(unread_only));
    order::sorted_is_permutation(kept, store::latest_first());
    order::sorted_is_in_order(kept, store::latest_first());
    order::lemma_filter_contains(s.digests, store::is_wanted(unread_only));
    assert forall|d: DigestRowModel| #[trigger]
        s.digest_list(unread_only, -1).contains(d) <==> s.digests.contains(d) && (unread_only
            ==> d.acked_at is None) by {
        assert(s.digest_list(unread_only, -1).contains(d) <==> kept.contains(d));
    }
}

/// An acknowledged digest is no longer listed among the unread, is still
/// there otherwise, and a second acknowledgement changes nothing.
pub proof fn acknowledged_digests_are_read(s: StoreModel, id: int, now: i64, later: i64)
    requires
        s.wf(),
        s.ack_digest(id, now).1,
    ensures
        ({
            let t = s.ack_digest(id, now).0;
            &&& forall|d: DigestRowModel| #[trigger]
                t.digest_list(true, -1).contains(d) ==> d.id != id
            &&& exists|d: DigestRowModel| #[trigger]
                t.digest_list(false, -1).contains(d) && d.id == id
            &&& t.ack_digest(id, later) == (t, true)
        }),
{
    let t = s.ack_digest(id, now).0;
    order::lemma_position(s.digests, store::is_digest(id));
    let i = order::position(s.digests, store::is_digest(id))->Some_0;
    digests_are_listed(t, true);
    digests_are_listed(t, false);
    assert(t.digests[i].id == id && t.digests[i].acked_at is Some);
    assert forall|k: int| 0 <= k < t.digests.len() && k != i implies (#[trigger] t.digests[k]).id
        != id by {
        if k < i {
            assert((store::next_digest())(s.digests[k], s.digests[i]));
        } else {
            assert((store::next_digest())(s.digests[i], s.digests[k]));
        }
    }
    assert(t.digests.contains(t.digests[i]));
    assert(t.digest_list(false, -1).contains(t.digests[i]));
    assert forall|d: DigestRowModel| #[trigger] t.digest_list(true, -1).contains(d) implies d.id
        != id by {
        let k = choose|k: int| 0 <= k < t.digests.len() && t.digests[k] == d;
        assert(t.digests[k] == d);
    }
    order::lemma_position_is(t.digests, store::is_digest(id), i);
    assert(t.ack_digest(id, later).0 =~= t);
}

/// A digest that was written is listed as unread, with its period, its text and
/// what a column keeps of its body, and no period ends after the later of its own and the last before it.
pub proof fn a_written_digest_is_read_back(
    s: StoreModel,
    period_from: int,
    period_to: int,
    created_at: int,
    body: Json,
    text: Seq<char>,
)
    requires
        s.insert_digest(period_from, period_to, created_at, body, text).1 is Ok,
    ensures
        ({
            let (t, r) = s.insert_digest(period_from, period_to, created_at, body, text);
            let d = DigestRowModel {
                id: r->Ok_0,
                period_from,
                period_to,
                created_at,
                body: json::kept(body),
                text,
                acked_at: None,
            };
            &&& t.digest_list(true, -1).contains(d)
            &&& t.last_period_to() == Some(
                match s.last_period_to() {
                    Some(last) if last >= period_to => last,
                    _ => period_to,
                },
            )
        }),
{
    let (t, r) = s.insert_digest(period_from, period_to, created_at, body, text);
    digests_are_listed(t, true);
    assert(t.digests.drop_last() =~= s.digests);
    assert(t.digests[t.digests.len() - 1] == t.digests.last());
}

/// Pruning keeps projects and branch tips, and drops exactly the events seen
/// and the digests ended before the moment.
pub proof fn pruning_drops_only_old_rows(s: StoreModel, before: int)
    ensures
        s.prune(before).0.projects == s.projects,
        s.prune(before).0.refs == s.refs,
        forall|e: StoredModel| #[trigger]
            s.prune(before).0.events.contains(e) <==> s.events.contains(e) && e.seen_at >= before,
        forall|d: DigestRowModel| #[trigger]
            s.prune(before).0.digests.contains(d) <==> s.digests.contains(d) && d.period_to
                >= before,
{
    order::lemma_filter_contains(s.events, store::is_recent(before));
    order::lemma_filter_contains(s.digests, store::is_recent_digest(before));
}

/// The tip that was set is the one tip of its branch, and no other branch
/// changes.
pub proof fn a_set_tip_is_read_back(s: StoreModel, project_id: int, name: Seq<char>, sha: Seq<char>)
    requires
        s.wf(),
        s.knows(project_id),
    ensures
        forall|r: RefModel| #[trigger]
            s.set_ref(project_id, name, sha).0.refs.contains(r) <==> if r.project_id == project_id
                && r.name == name {
                r.sha == sha
            } else {
                s.refs.contains(r)
            },
        s.set_ref(project_id, name, sha).1 is Ok,
        s.set_ref(project_id, name, sha).0.projects == s.projects,
        s.set_ref(project_id, name, sha).0.events == s.events,
        s.set_ref(project_id, name, sha).0.digests == s.digests,
{
    let t = s.set_ref(project_id, name, sha).0;
    let row = RefModel { project_id, name, sha };
    order::lemma_position(s.refs, store::is_ref(project_id, name));
    assert forall|r: RefModel| #[trigger]
        t.refs.contains(r) <==> if r.project_id == project_id && r.name == name {
            r.sha == sha
        } else {
            s.refs.contains(r)
        } by {
        match order::position(s.refs, store::is_ref(project_id, name)) {
            Some(i) => {
                assert(t.refs[i] == row);
                if t.refs.contains(r) {
                    let k = choose|k: int| 0 <= k < t.refs.len() && t.refs[k] == r;
                    if k != i {
                        assert(s.refs[k] == r);
                        if k < i {
                            assert((store::other_branch())(s.refs[k], s.refs[i]));
                        } else {
                            assert((store::other_branch())(s.refs[i], s.refs[k]));
                        }
                    }
                } else if s.refs.contains(r) {
                    let k = choose|k: int| 0 <= k < s.refs.len() && s.refs[k] == r;
                    if k != i {
                        assert(t.refs[k] == r);
                    }
                }
            },
            None => {
                assert(t.refs[t.refs.len() - 1] == row);
                if t.refs.contains(r) {
                    let k = choose|k: int| 0 <= k < t.refs.len() && t.refs[k] == r;
                    if k < s.refs.len() {
                        assert(s.refs[k] == r);
                        assert(!(store::is_ref(project_id, name))(s.refs[k]));
                    }
                } else if s.refs.contains(r) {
                    let k = choose|k: int| 0 <= k < s.refs.len() && s.refs[k] == r;
                    assert(t.refs[k] == r);
                }
            },
        }
    }
}

/// A branch that was dropped has no tip, and no other branch changes.
pub proof fn a_dropped_branch_is_gone(s: StoreModel, project_id: int, name: Seq<char>)
    ensures
        forall|r: RefModel| #[trigger]
            s.delete_ref(project_id, name).refs.contains(r) <==> s.refs.contains(r) && !(
            r.project_id == project_id && r.name == name),
        s.delete_ref(project_id, name).projects == s.projects,
        s.delete_ref(project_id, name).events == s.events,
        s.delete_ref(project_id, name).digests == s.digests,
{
    order::lemma_filter_contains(s.refs, store::is_other_ref(project_id, name));
}

/// What a scan saw of a project is what the project then shows; its other
/// columns, the other projects and all other rows stay as they were.
pub proof fn a_snapshot_is_read_back(s: StoreModel, id: int, snapshot: SnapshotModel, now: i64)
    requires
        s.wf(),
        s.knows(id),
    ensures
        ({
            let t = s.save_snapshot(id, snapshot, now);
            let i = order::position(s.projects, store::with_id(id))->Some_0;
            &&& order::position(t.projects, store::with_id(id)) == Some(i)
            &&& t.projects[i].head_branch == snapshot.head_branch
            &&& t.projects[i].dirty_files == snapshot.dirty_files
            &&& t.projects[i].dirty_sample == snapshot.dirty_sample
            &&& t.projects[i].last_scanned == Some(now)
            &&& t.projects[i].id == s.projects[i].id && t.projects[i].path == s.projects[i].path
            &&& t.projects[i].name == s.projects[i].name
            &&& t.projects[i].first_seen == s.projects[i].first_seen
            &&& t.projects[i].last_activity == s.projects[i].last_activity
            &&& t.projects[i].removed_at == s.projects[i].removed_at
            &&& t.projects.len() == s.projects.len()
            &&& forall|j: int|
                0 <= j < s.projects.len() && j != i ==> #[trigger] t.projects[j] == s.projects[j]
            &&& t.refs == s.refs && t.events == s.events && t.digests == s.digests
        }),
{
    order::lemma_position(s.projects, store::with_id(id));
    let i = order::position(s.projects, store::with_id(id))->Some_0;
    lemma_replaced(s, i, s.save_snapshot(id, snapshot, now).projects[i]);
}

/// The list of projects holds each project as often as the store, by name.
pub proof fn projects_are_listed_by_name(s: StoreModel)
    ensures
        s.by_name().to_multiset() == s.projects.to_multiset(),
        order::in_order(s.by_name(), store::by_name()),
{
    assert forall|a: ProjectModel, b: ProjectModel| #[trigger]
        (store::by_name())(a, b) implies !(store::by_name())(b, a) by {
        text::lemma_precedes_total(a.name, b.name);
    }
    assert forall|a: ProjectModel, b: ProjectModel, c: ProjectModel|
        #![trigger (store::by_name())(b, a), (store::by_name())(c, b)]
        !(store::by_name())(b, a) && !(store::by_name())(c, b) implies !(store::by_name())(c, a) by {
        if text::precedes(c.name, a.name) {
            text::lemma_precedes_total(a.name, b.name);
            text::lemma_precedes_total(b.name, c.name);
            text::lemma_precedes_total(a.name, c.name);
            if a.name != b.name {
                text::lemma_precedes_transitive(c.name, a.name, b.name);
            }
        }
    }
    order::sorted_is_permutation(s.projects, store::by_name());
    order::sorted_is_in_order(s.projects, store::by_name());
}

} // verus!
