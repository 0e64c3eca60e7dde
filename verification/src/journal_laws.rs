//! What the queries of the journal give, and what its writes leave alone.

use crate::json::Json;
use crate::order;
use crate::store;
use crate::store::{
    DigestRowModel, EventModel, ProjectModel, StoreError, StoreModel, StoredModel,
};
use crate::store_laws;
use crate::text;
use crate::json;
use crate::period_laws;
use vstd::prelude::*;

verus! {

// --- projects ------------------------------------------------------------

/// Whether a project has the name or lies at the path.
pub open spec fn answers_to(p: ProjectModel, key: Seq<char>) -> bool {
    p.name == key || p.path == key
}

/// A project is found by its name or its path, and one that is still there
/// before one that is gone; of several the one registered first.
pub proof fn a_project_is_found_by_name_or_path(s: StoreModel, key: Seq<char>)
    ensures
        s.find_project(key) is None <==> forall|i: int|
            0 <= i < s.projects.len() ==> !answers_to(#[trigger] s.projects[i], key),
        s.find_project(key) matches Some(p) ==> answers_to(p, key) && exists|i: int|
            0 <= i < s.projects.len() && #[trigger] s.projects[i] == p && forall|j: int|
                0 <= j < s.projects.len() && answers_to(#[trigger] s.projects[j], key) && (j < i
                    || p.removed_at is Some) ==> s.projects[j].removed_at is Some && (j < i
                    ==> p.removed_at is None),
{
    order::lemma_position(s.projects, store::active_called(key));
    order::lemma_position(s.projects, store::called(key));
    match order::position(s.projects, store::active_called(key)) {
        Some(i) => {
            let p = s.projects[i];
            assert(s.find_project(key) == Some(p));
            assert forall|j: int|
                0 <= j < s.projects.len() && answers_to(#[trigger] s.projects[j], key) && (j < i
                    || p.removed_at is Some) implies s.projects[j].removed_at is Some && (j < i
                ==> p.removed_at is None) by {
                assert(!(store::active_called(key))(s.projects[j]));
            }
        },
        None => {
            match order::position(s.projects, store::called(key)) {
                Some(i) => {
                    let p = s.projects[i];
                    assert(s.find_project(key) == Some(p));
                    assert(!(store::active_called(key))(s.projects[i]));
                    assert forall|j: int|
                        0 <= j < s.projects.len() && answers_to(#[trigger] s.projects[j], key) && (j
                            < i || p.removed_at is Some) implies s.projects[j].removed_at is Some
                        && (j < i ==> p.removed_at is None) by {
                        assert(!(store::active_called(key))(s.projects[j]));
                        if j < i {
                            assert(!(store::called(key))(s.projects[j]));
                        }
                    }
                },
                None => {
                    assert forall|i: int| 0 <= i < s.projects.len() implies !answers_to(
                        #[trigger] s.projects[i],
                        key,
                    ) by {
                        assert(!(store::called(key))(s.projects[i]));
                    }
                },
            }
        },
    }
}

/// Whether a project at the path is still there.
pub open spec fn is_watched(s: StoreModel, path: Seq<char>) -> bool {
    exists|i: int|
        0 <= i < s.projects.len() && (#[trigger] s.projects[i]).path == path
            && s.projects[i].removed_at is None
}

/// Whether a project at the path is registered.
pub open spec fn is_registered(s: StoreModel, path: Seq<char>) -> bool {
    exists|i: int| 0 <= i < s.projects.len() && (#[trigger] s.projects[i]).path == path
}

/// Registering a path: afterwards a project is there at the path, under the
/// identifier that is told. It is new if none was there, and has the name
/// then; a path that was never registered gets a row that shows nothing yet.
/// No other row changes, and no row at all if a project was there.
pub proof fn registering_watches_the_path(
    s: StoreModel,
    path: Seq<char>,
    name: Seq<char>,
    now: i64,
)
    requires
        s.wf(),
        s.upsert_project(path, name, now).1 is Ok,
    ensures
        ({
            let (t, r) = s.upsert_project(path, name, now);
            let (id, created) = r->Ok_0;
            &&& created <==> !is_watched(s, path)
            &&& !created ==> t == s
            &&& t.refs == s.refs && t.events == s.events && t.digests == s.digests
            &&& t.projects.len() == s.projects.len() + (if is_registered(s, path) {
                0int
            } else {
                1
            })
            &&& exists|i: int|
                0 <= i < t.projects.len() && ({
                    let p = #[trigger] t.projects[i];
                    &&& p.path == path && p.id == id && p.removed_at is None
                    &&& created ==> p.name == name
                    &&& i == s.projects.len() ==> p.first_seen == now && p.head_branch is None
                        && p.dirty_files == 0 && p.dirty_sample.len() == 0 && p.last_scanned is None
                        && p.last_activity is None
                    &&& i < s.projects.len() ==> s.projects[i].id == id && s.projects[i].path
                        == path && p.first_seen == s.projects[i].first_seen && p.head_branch
                        == s.projects[i].head_branch && p.dirty_files == s.projects[i].dirty_files
                        && p.dirty_sample == s.projects[i].dirty_sample && p.last_scanned
                        == s.projects[i].last_scanned && p.last_activity
                        == s.projects[i].last_activity
                    &&& forall|j: int|
                        0 <= j < s.projects.len() && j != i ==> #[trigger] t.projects[j]
                            == s.projects[j]
                })
        }),
{
    let (t, r) = s.upsert_project(path, name, now);
    order::lemma_position(s.projects, store::with_path(path));
    match order::position(s.projects, store::with_path(path)) {
        Some(i) => {
            assert((store::with_path(path))(s.projects[i]));
            assert(t.projects[i].path == path);
            assert forall|j: int|
                0 <= j < s.projects.len() && (#[trigger] s.projects[j]).path == path implies j
                == i by {
                assert((store::with_path(path))(s.projects[j]));
                if i < j {
                    assert((store::other_project())(s.projects[i], s.projects[j]));
                }
            }
        },
        None => {
            let n = s.projects.len() as int;
            assert forall|i: int| 0 <= i < n implies (#[trigger] s.projects[i]).path != path by {
                assert(!(store::with_path(path))(s.projects[i]));
            }
            assert(t.projects[n].path == path);
        },
    }
}

/// A project that is marked as gone is gone since the first time; its other
/// columns and all other rows stay.
pub proof fn a_project_is_gone_since_the_first_time(s: StoreModel, id: int, now: i64)
    requires
        s.wf(),
    ensures
        ({
            let t = s.mark_removed(id, now);
            &&& t.refs == s.refs && t.events == s.events && t.digests == s.digests
            &&& t.projects.len() == s.projects.len()
            &&& forall|i: int|
                0 <= i < s.projects.len() ==> ({
                    let p = #[trigger] t.projects[i];
                    let q = s.projects[i];
                    &&& p.id == q.id && p.path == q.path && p.name == q.name
                    &&& p.head_branch == q.head_branch && p.dirty_files == q.dirty_files
                    &&& p.dirty_sample == q.dirty_sample && p.first_seen == q.first_seen
                    &&& p.last_scanned == q.last_scanned && p.last_activity == q.last_activity
                    &&& p.removed_at == (if q.id == id && q.removed_at is None {
                        Some(now)
                    } else {
                        q.removed_at
                    })
                })
        }),
{
    let t = s.mark_removed(id, now);
    order::lemma_position(s.projects, store::with_id(id));
    assert forall|i: int| 0 <= i < s.projects.len() && (#[trigger] s.projects[i]).id == id implies
        order::position(s.projects, store::with_id(id)) == Some(i) by {
        let k = order::position(s.projects, store::with_id(id));
        assert((store::with_id(id))(s.projects[i]));
        if k is Some {
            let k = k->Some_0;
            if k < i {
                assert((store::other_project())(s.projects[k], s.projects[i]));
            }
        }
    }
}

/// An event moves the last activity of its project forward, never back, and
/// touches no other project. What was written before stays.
pub proof fn activity_never_goes_back(
    s: StoreModel,
    project_id: int,
    kind: Seq<char>,
    seen_at: i64,
    sha: Option<Seq<char>>,
    payload: Json,
)
    requires
        s.wf(),
        s.insert_event(project_id, kind, seen_at, sha, payload).1 == Ok::<bool, StoreError>(true),
    ensures
        ({
            let t = s.insert_event(project_id, kind, seen_at, sha, payload).0;
            &&& t.refs == s.refs && t.digests == s.digests
            &&& t.events.len() == s.events.len() + 1
            &&& forall|k: int| 0 <= k < s.events.len() ==> #[trigger] t.events[k] == s.events[k]
            &&& t.projects.len() == s.projects.len()
            &&& forall|i: int|
                0 <= i < s.projects.len() ==> ({
                    let p = #[trigger] t.projects[i];
                    let q = s.projects[i];
                    &&& q.id != project_id ==> p == q
                    &&& q.id == project_id ==> {
                        &&& p.last_activity matches Some(last) && last >= seen_at && (last
                            == seen_at || q.last_activity == Some(last) || (q.last_activity is None
                            && last == 0)) && (q.last_activity matches Some(known) ==> last
                            >= known)
                        &&& p.id == q.id && p.path == q.path && p.name == q.name
                        &&& p.head_branch == q.head_branch && p.dirty_files == q.dirty_files
                        &&& p.dirty_sample == q.dirty_sample && p.first_seen == q.first_seen
                        &&& p.last_scanned == q.last_scanned && p.removed_at == q.removed_at
                    }
                })
        }),
{
    order::lemma_position(s.projects, store::with_id(project_id));
    assert forall|i: int|
        0 <= i < s.projects.len() && (#[trigger] s.projects[i]).id == project_id implies
        order::position(s.projects, store::with_id(project_id)) == Some(i) by {
        let k = order::position(s.projects, store::with_id(project_id));
        assert((store::with_id(project_id))(s.projects[i]));
        if k is Some {
            let k = k->Some_0;
            if k < i {
                assert((store::other_project())(s.projects[k], s.projects[i]));
            }
        }
    }
    let k = order::position(s.projects, store::with_id(project_id))->Some_0;
    assert((store::with_id(project_id))(s.projects[k]));
}

/// The name that an event is shown with is that of its project.
pub proof fn an_event_has_the_name_of_its_project(s: StoreModel, i: int)
    requires
        s.wf(),
        0 <= i < s.projects.len(),
    ensures
        s.name_of(s.projects[i].id) == s.projects[i].name,
{
    let id = s.projects[i].id;
    order::lemma_position(s.projects, store::with_id(id));
    assert((store::with_id(id))(s.projects[i]));
    let k = order::position(s.projects, store::with_id(id))->Some_0;
    if k < i {
        assert((store::other_project())(s.projects[k], s.projects[i]));
    }
}

/// All projects are listed, each once, by name.
pub proof fn projects_stand_by_name(s: StoreModel)
    ensures
        s.by_name().len() == s.projects.len(),
        forall|p: ProjectModel| #[trigger] s.by_name().contains(p) <==> s.projects.contains(p),
        forall|i: int, j: int|
            0 <= i < j < s.by_name().len() ==> !text::precedes(
                (#[trigger] s.by_name()[j]).name,
                (#[trigger] s.by_name()[i]).name,
            ),
{
    store_laws::projects_are_listed_by_name(s);
    order::sorted_is_permutation(s.projects, store::by_name());
    assert forall|i: int, j: int| 0 <= i < j < s.by_name().len() implies !text::precedes(
        (#[trigger] s.by_name()[j]).name,
        (#[trigger] s.by_name()[i]).name,
    ) by {
        assert(!(store::by_name())(s.by_name()[j], s.by_name()[i]));
    }
}

// --- events --------------------------------------------------------------

/// Whether an event is shown: the row holds what was written, with the name
/// of the project.
pub open spec fn is_shown(s: StoreModel, e: StoredModel, row: EventModel) -> bool {
    &&& row.id == e.id && row.project_id == e.project_id && row.kind == e.kind
    &&& row.seen_at == e.seen_at && row.payload == e.payload
    &&& row.project == s.name_of(e.project_id)
}

/// Whether a call asks for an event: it was seen at the moment or later, in
/// the project if one is given.
pub open spec fn is_asked(project: Option<i64>, since: int, e: StoredModel) -> bool {
    since <= e.seen_at && match project {
        Some(id) => e.project_id == id,
        None => true,
    }
}

/// Whether a row shows an event that a call asks for.
pub open spec fn is_recorded(
    s: StoreModel,
    project: Option<i64>,
    since: int,
    row: EventModel,
) -> bool {
    exists|i: int|
        0 <= i < s.events.len() && is_asked(project, since, #[trigger] s.events[i]) && is_shown(
            s,
            s.events[i],
            row,
        )
}

/// Whether one of the rows shows an event.
pub open spec fn is_listed(s: StoreModel, rows: Seq<EventModel>, e: StoredModel) -> bool {
    exists|m: int| 0 <= m < rows.len() && is_shown(s, e, #[trigger] rows[m])
}

/// Events that a call asks for.
pub open spec fn asked_for(project: Option<i64>, since: int) -> spec_fn(StoredModel) -> bool {
    |e: StoredModel| is_asked(project, since, e)
}

/// Whether one event comes before another among the newest.
pub open spec fn is_newer(at: int, id: int, other_at: int, other_id: int) -> bool {
    at > other_at || (at == other_at && id > other_id)
}

proof fn lemma_newest_order()
    ensures
        order::is_order(store::newest_first()),
        order::is_order(store::latest_first()),
{
}

/// The recent events are the newest of those that are asked for, newest
/// first, as many as the limit allows, and all where it is negative.
pub proof fn recent_events_are_the_newest(
    s: StoreModel,
    project: Option<i64>,
    since: int,
    limit: int,
)
    requires
        s.wf(),
    ensures
        ({
            let rows = s.recent_events(project, since, limit);
            let count = s.events.filter(asked_for(project, since)).len();
            &&& rows.len() == (if limit < 0 || limit >= count {
                count as int
            } else {
                limit
            })
            &&& forall|k: int|
                0 <= k < rows.len() ==> is_recorded(
                    s,
                    project,
                    since,
                    #[trigger] rows[k],
                )
            &&& forall|k: int, m: int|
                0 <= k < m < rows.len() ==> is_newer(
                    (#[trigger] rows[k]).seen_at,
                    rows[k].id,
                    (#[trigger] rows[m]).seen_at,
                    rows[m].id,
                )
            &&& forall|i: int, k: int|
                0 <= i < s.events.len() && is_asked(project, since, #[trigger] s.events[i]) && 0
                    <= k < rows.len() && !is_listed(s, rows, s.events[i]) ==> is_newer(
                    (#[trigger] rows[k]).seen_at,
                    rows[k].id,
                    s.events[i].seen_at,
                    s.events[i].id,
                )
        }),
{
    let p = store::seen_since(project, since);
    let kept = s.events.filter(p);
    let joined = s.joined_all(kept);
    let all = order::sorted(joined, store::newest_first());
    let rows = s.recent_events(project, since, limit);
    lemma_newest_order();
    order::sorted_is_permutation(joined, store::newest_first());
    order::sorted_is_in_order(joined, store::newest_first());
    order::lemma_filter_contains(s.events, p);
    assert(p =~= asked_for(project, since));
    lemma_event_ids(s, p);
    assert forall|k: int| 0 <= k < rows.len() implies #[trigger] rows[k] == all[k] by {}
    assert forall|k: int| 0 <= k < all.len() implies is_recorded(
        s,
        project,
        since,
        #[trigger] all[k],
    ) by {
        assert(all.contains(all[k]));
        assert(joined.contains(all[k]));
        let m = choose|m: int| 0 <= m < joined.len() && joined[m] == all[k];
        assert(kept.contains(kept[m]));
        let i = choose|i: int| 0 <= i < s.events.len() && s.events[i] == kept[m];
        assert(p(s.events[i]));
        assert(joined[m] == s.joined(kept[m]));
        assert(is_shown(s, s.events[i], all[k]));
    }
    lemma_sorted_ids(joined);
    assert forall|k: int, m: int| 0 <= k < m < all.len() implies is_newer(
        (#[trigger] all[k]).seen_at,
        all[k].id,
        (#[trigger] all[m]).seen_at,
        all[m].id,
    ) by {
        assert(!(store::newest_first())(all[m], all[k]));
        assert(all[k].id != all[m].id);
    }
    assert forall|i: int, k: int|
        0 <= i < s.events.len() && is_asked(project, since, #[trigger] s.events[i]) && 0 <= k
            < rows.len() && !is_listed(s, rows, s.events[i]) implies is_newer(
        (#[trigger] rows[k]).seen_at,
        rows[k].id,
        s.events[i].seen_at,
        s.events[i].id,
    ) by {
        assert(s.events.contains(s.events[i]));
        assert(p(s.events[i]));
        assert(kept.contains(s.events[i]));
        let x = choose|x: int| 0 <= x < kept.len() && kept[x] == s.events[i];
        assert(joined[x] == s.joined(s.events[i]));
        assert(joined.contains(joined[x]));
        assert(all.contains(joined[x]));
        let y = choose|y: int| 0 <= y < all.len() && all[y] == joined[x];
        if y < rows.len() {
            assert(rows[y] == all[y]);
            assert(is_shown(s, s.events[i], rows[y]));
        }
        assert(rows[k] == all[k]);
        assert(is_newer(all[k].seen_at, all[k].id, all[y].seen_at, all[y].id));
    }
}

/// The events that are kept differ in their identifiers.
proof fn lemma_event_ids(s: StoreModel, p: spec_fn(StoredModel) -> bool)
    requires
        s.wf(),
    ensures
        forall|i: int, j: int|
            0 <= i < j < s.joined_all(s.events.filter(p)).len() ==> (#[trigger] s.joined_all(
                s.events.filter(p),
            )[i]).id != (#[trigger] s.joined_all(s.events.filter(p))[j]).id,
{
    let kept = s.events.filter(p);
    let from = order::kept_from(s.events, p);
    order::lemma_kept_from(s.events, p);
    assert forall|i: int, j: int| 0 <= i < j < s.joined_all(kept).len() implies (
    #[trigger] s.joined_all(kept)[i]).id != (#[trigger] s.joined_all(kept)[j]).id by {
        assert(s.joined_all(kept)[i] == s.joined(kept[i]));
        assert(s.joined_all(kept)[j] == s.joined(kept[j]));
        assert(kept[i] == s.events[from[i]] && kept[j] == s.events[from[j]]);
        assert(from[i] < from[j]);
        assert((store::next_event())(s.events[from[i]], s.events[from[j]]));
    }
}

/// Sorting keeps identifiers apart.
proof fn lemma_sorted_ids(rows: Seq<EventModel>)
    requires
        forall|i: int, j: int|
            0 <= i < j < rows.len() ==> (#[trigger] rows[i]).id != (#[trigger] rows[j]).id,
    ensures
        forall|i: int, j: int|
            0 <= i < j < order::sorted(rows, store::newest_first()).len() ==> (
            #[trigger] order::sorted(rows, store::newest_first())[i]).id != (
            #[trigger] order::sorted(rows, store::newest_first())[j]).id,
    decreases rows.len(),
{
    let before = store::newest_first();
    if rows.len() > 0 {
        let rest = rows.drop_last();
        let x = rows.last();
        assert forall|i: int, j: int| 0 <= i < j < rest.len() implies (#[trigger] rest[i]).id != (
        #[trigger] rest[j]).id by {
            assert(rest[i] == rows[i] && rest[j] == rows[j]);
        }
        lemma_sorted_ids(rest);
        order::sorted_is_permutation(rest, before);
        let s = order::sorted(rest, before);
        assert forall|i: int| 0 <= i < s.len() implies (#[trigger] s[i]).id != x.id by {
            assert(s.contains(s[i]));
            assert(rest.contains(s[i]));
            let k = choose|k: int| 0 <= k < rest.len() && rest[k] == s[i];
            assert(rows[k] == s[i]);
            assert(rows[rows.len() - 1] == x);
        }
        lemma_placed_ids(s, x);
    }
}

proof fn lemma_placed_ids(s: Seq<EventModel>, x: EventModel)
    requires
        forall|i: int, j: int| 0 <= i < j < s.len() ==> (#[trigger] s[i]).id != (#[trigger] s[j]).id,
        forall|i: int| 0 <= i < s.len() ==> (#[trigger] s[i]).id != x.id,
    ensures
        forall|i: int, j: int|
            0 <= i < j < order::placed(s, x, store::newest_first()).len() ==> (
            #[trigger] order::placed(s, x, store::newest_first())[i]).id != (
            #[trigger] order::placed(s, x, store::newest_first())[j]).id,
        forall|i: int|
            0 <= i < order::placed(s, x, store::newest_first()).len() ==> (
            #[trigger] order::placed(s, x, store::newest_first())[i]) == x || s.contains(
                order::placed(s, x, store::newest_first())[i],
            ),
    decreases s.len(),
{
    let before = store::newest_first();
    let r = order::placed(s, x, before);
    if s.len() > 0 && before(x, s.last()) {
        let rest = s.drop_last();
        assert forall|i: int, j: int| 0 <= i < j < rest.len() implies (#[trigger] rest[i]).id != (
        #[trigger] rest[j]).id by {
            assert(rest[i] == s[i] && rest[j] == s[j]);
        }
        assert forall|i: int| 0 <= i < rest.len() implies (#[trigger] rest[i]).id != x.id by {
            assert(rest[i] == s[i]);
        }
        lemma_placed_ids(rest, x);
        let q = order::placed(rest, x, before);
        assert(r == q.push(s.last()));
        assert forall|i: int| 0 <= i < q.len() implies (#[trigger] q[i]).id != s.last().id && (q[i]
            == x || s.contains(q[i])) by {
            if q[i] != x {
                assert(rest.contains(q[i]));
                let k = choose|k: int| 0 <= k < rest.len() && rest[k] == q[i];
                assert(s[k] == q[i]);
                assert(s[s.len() - 1] == s.last());
            } else {
                assert(s[s.len() - 1].id != x.id);
            }
        }
        assert forall|i: int, j: int| 0 <= i < j < r.len() implies (#[trigger] r[i]).id != (
        #[trigger] r[j]).id by {
            assert(r[i] == q[i]);
            if j < q.len() {
                assert(r[j] == q[j]);
            }
        }
        assert forall|i: int| 0 <= i < r.len() implies (#[trigger] r[i]) == x || s.contains(
            r[i],
        ) by {
            if i < q.len() {
                assert(r[i] == q[i]);
            } else {
                assert(s[s.len() - 1] == r[i]);
            }
        }
    } else {
        assert(r == s.push(x));
        assert forall|i: int| 0 <= i < r.len() implies (#[trigger] r[i]) == x || s.contains(
            r[i],
        ) by {
            if i < s.len() {
                assert(s[i] == r[i]);
            }
        }
    }
}

/// The events of a period stand in the order in which they were seen, and
/// those of one moment in that in which they were written.
pub proof fn a_period_runs_forward(s: StoreModel, from: int, to: int)
    ensures
        ({
            let rows = s.events_between(from, to);
            forall|k: int, m: int|
                0 <= k < m < rows.len() ==> !is_newer(
                    (#[trigger] rows[k]).seen_at,
                    rows[k].id,
                    (#[trigger] rows[m]).seen_at,
                    rows[m].id,
                )
        }),
{
    store_laws::a_period_holds_its_events(s, from, to);
    let rows = s.events_between(from, to);
    assert forall|k: int, m: int| 0 <= k < m < rows.len() implies !is_newer(
        (#[trigger] rows[k]).seen_at,
        rows[k].id,
        (#[trigger] rows[m]).seen_at,
        rows[m].id,
    ) by {
        assert(!(store::oldest_first())(rows[m], rows[k]));
    }
}

// --- digests -------------------------------------------------------------

/// Digests that a call asks for.
pub open spec fn not_read(unread_only: bool) -> spec_fn(DigestRowModel) -> bool {
    |d: DigestRowModel| !unread_only || d.acked_at is None
}

/// The listed digests are those with the latest periods, latest first, as
/// many as the limit allows, and all where it is negative.
pub proof fn listed_digests_are_the_latest(s: StoreModel, unread_only: bool, limit: int)
    ensures
        ({
            let rows = s.digest_list(unread_only, limit);
            let count = s.digests.filter(not_read(unread_only)).len();
            &&& rows.len() == (if limit < 0 || limit >= count {
                count as int
            } else {
                limit
            })
            &&& forall|k: int|
                0 <= k < rows.len() ==> s.digests.contains(#[trigger] rows[k]) && (unread_only
                    ==> rows[k].acked_at is None)
            &&& forall|k: int, m: int|
                0 <= k < m < rows.len() ==> !is_newer(
                    (#[trigger] rows[m]).period_to,
                    rows[m].id,
                    (#[trigger] rows[k]).period_to,
                    rows[k].id,
                )
            &&& forall|d: DigestRowModel, k: int|
                #![trigger s.digests.contains(d), rows[k]]
                s.digests.contains(d) && (unread_only ==> d.acked_at is None) && !rows.contains(d)
                    && 0 <= k < rows.len() ==> !is_newer(
                    d.period_to,
                    d.id,
                    rows[k].period_to,
                    rows[k].id,
                )
        }),
{
    let p = store::is_wanted(unread_only);
    let kept = s.digests.filter(p);
    let all = order::sorted(kept, store::latest_first());
    let rows = s.digest_list(unread_only, limit);
    lemma_newest_order();
    order::sorted_is_permutation(kept, store::latest_first());
    order::sorted_is_in_order(kept, store::latest_first());
    order::lemma_filter_contains(s.digests, p);
    assert(p =~= not_read(unread_only));
    assert forall|k: int| 0 <= k < rows.len() implies #[trigger] rows[k] == all[k] by {}
    assert forall|k: int| 0 <= k < rows.len() implies s.digests.contains(#[trigger] rows[k]) && (
    unread_only ==> rows[k].acked_at is None) by {
        assert(all.contains(all[k]));
        assert(kept.contains(all[k]));
        assert(p(all[k]));
    }
    assert forall|k: int, m: int| 0 <= k < m < rows.len() implies !is_newer(
        (#[trigger] rows[m]).period_to,
        rows[m].id,
        (#[trigger] rows[k]).period_to,
        rows[k].id,
    ) by {
        assert(!(store::latest_first())(all[m], all[k]));
    }
    assert forall|d: DigestRowModel, k: int|
        #![trigger s.digests.contains(d), rows[k]]
        s.digests.contains(d) && (unread_only ==> d.acked_at is None) && !rows.contains(d) && 0 <= k
            < rows.len() implies !is_newer(
        d.period_to,
        d.id,
        rows[k].period_to,
        rows[k].id,
    ) by {
        assert(p(d));
        assert(kept.contains(d));
        assert(all.contains(d));
        let y = choose|y: int| 0 <= y < all.len() && all[y] == d;
        if y < rows.len() {
            assert(rows[y] == d);
        }
        assert(!(store::latest_first())(all[y], all[k]));
    }
}

/// An acknowledged digest was acknowledged at the first time; nothing else
/// changes, and an unknown one changes nothing.
pub proof fn a_digest_is_read_since_the_first_time(s: StoreModel, id: int, now: i64)
    requires
        s.wf(),
    ensures
        ({
            let (t, found) = s.ack_digest(id, now);
            &&& found <==> exists|i: int|
                0 <= i < s.digests.len() && (#[trigger] s.digests[i]).id == id
            &&& t.projects == s.projects && t.refs == s.refs && t.events == s.events
            &&& t.digests.len() == s.digests.len()
            &&& forall|i: int|
                0 <= i < s.digests.len() ==> ({
                    let d = #[trigger] t.digests[i];
                    let q = s.digests[i];
                    &&& d.id == q.id && d.period_from == q.period_from && d.period_to == q.period_to
                    &&& d.created_at == q.created_at && d.body == q.body && d.text == q.text
                    &&& d.acked_at == (if q.id == id && q.acked_at is None {
                        Some(now)
                    } else {
                        q.acked_at
                    })
                })
        }),
{
    order::lemma_position(s.digests, store::is_digest(id));
    assert forall|i: int| 0 <= i < s.digests.len() && (#[trigger] s.digests[i]).id == id implies
        order::position(s.digests, store::is_digest(id)) == Some(i) by {
        let k = order::position(s.digests, store::is_digest(id));
        assert((store::is_digest(id))(s.digests[i]));
        if k is Some {
            let k = k->Some_0;
            if k < i {
                assert((store::next_digest())(s.digests[k], s.digests[i]));
            }
        }
    }
    if let Some(k) = order::position(s.digests, store::is_digest(id)) {
        assert((store::is_digest(id))(s.digests[k]));
    }
}

/// Pruning tells how many rows it dropped.
pub proof fn pruning_counts_what_it_drops(s: StoreModel, before: int)
    ensures
        s.prune(before).1 == s.events.len() + s.digests.len() - s.prune(before).0.events.len()
            - s.prune(before).0.digests.len(),
{
    lemma_no_more(s.events, store::is_recent(before));
    lemma_no_more(s.digests, store::is_recent_digest(before));
}

proof fn lemma_no_more<A>(s: Seq<A>, p: spec_fn(A) -> bool)
    ensures
        s.filter(p).len() <= s.len(),
    decreases s.len(),
{
    reveal(Seq::filter);
    if s.len() > 0 {
        lemma_no_more(s.drop_last(), p);
    }
}

// --- refusals ------------------------------------------------------------

/// Whether no project has the identifier.
pub open spec fn is_stranger(s: StoreModel, id: int) -> bool {
    forall|i: int| 0 <= i < s.projects.len() ==> (#[trigger] s.projects[i]).id != id
}

/// Nothing is written for a project that is not registered.
pub proof fn a_stranger_is_refused(
    s: StoreModel,
    id: int,
    kind: Seq<char>,
    seen_at: i64,
    sha: Option<Seq<char>>,
    payload: Json,
    branch: Seq<char>,
    tip: Seq<char>,
)
    ensures
        is_stranger(s, id) ==> s.insert_event(id, kind, seen_at, sha, payload) == (
            s,
            Err::<bool, StoreError>(StoreError::UnknownProject),
        ),
        is_stranger(s, id) ==> s.set_ref(id, branch, tip) == (
            s,
            Err::<(), StoreError>(StoreError::UnknownProject),
        ),
        !is_stranger(s, id) ==> s.insert_event(id, kind, seen_at, sha, payload).1 != Err::<
            bool,
            StoreError,
        >(StoreError::UnknownProject),
        !is_stranger(s, id) ==> s.set_ref(id, branch, tip).1 is Ok,
        s.insert_event(id, kind, seen_at, sha, payload).1 is Err ==> s.insert_event(
            id,
            kind,
            seen_at,
            sha,
            payload,
        ).0 == s,
{
    order::lemma_position(s.projects, store::with_id(id));
    match order::position(s.projects, store::with_id(id)) {
        Some(i) => {
            assert((store::with_id(id))(s.projects[i]));
        },
        None => {
            assert forall|i: int| 0 <= i < s.projects.len() implies (#[trigger] s.projects[i]).id
                != id by {
                assert(!(store::with_id(id))(s.projects[i]));
            }
        },
    }
}

/// What a payload says is read by its fields: a text as it is, a count by its
/// digits, and nothing where there is no such field or it is something else.
pub proof fn payloads_are_read_by_their_fields(j: Json, key: Seq<char>, text: Seq<char>, n: u64)
    ensures
        json::json_field(j, key) == Some(Json::Text(text)) ==> json::text_at(j, key) == text
            && json::count_at(j, key) == 0,
        json::json_field(j, key) == Some(Json::Number(text::decimal(n as nat))) ==> json::count_at(
            j,
            key,
        ) == n && json::text_at(j, key).len() == 0,
        json::json_field(j, key) is None ==> json::count_at(j, key) == 0 && json::text_at(
            j,
            key,
        ).len() == 0,
{
    text::decimal_reads_back(n as nat);
}

/// The projects that are still there are listed, by name, and no others.
pub proof fn active_projects_are_those_still_there(s: StoreModel)
    ensures
        ({
            let rows = s.by_name().filter(store::is_active());
            &&& forall|p: ProjectModel| #[trigger]
                rows.contains(p) <==> s.projects.contains(p) && p.removed_at is None
            &&& rows.len() == s.projects.filter(|p: ProjectModel| p.removed_at is None).len()
            &&& forall|i: int, j: int|
                0 <= i < j < rows.len() ==> !text::precedes(
                    (#[trigger] rows[j]).name,
                    (#[trigger] rows[i]).name,
                )
        }),
{
    let all = s.by_name();
    let active = store::is_active();
    let rows = all.filter(active);
    let at = order::kept_from(all, active);
    projects_stand_by_name(s);
    order::lemma_filter_contains(all, active);
    order::lemma_kept_from(all, active);
    assert forall|i: int, j: int| 0 <= i < j < rows.len() implies !text::precedes(
        (#[trigger] rows[j]).name,
        (#[trigger] rows[i]).name,
    ) by {
        assert(rows[i] == all[at[i]] && rows[j] == all[at[j]]);
        assert(at[i] < at[j]);
    }
    assert(active =~= (|p: ProjectModel| p.removed_at is None));
    let one = |p: ProjectModel|
        if active(p) {
            1nat
        } else {
            0
        };
    period_laws::lemma_marks(all, active, one);
    period_laws::lemma_marks(s.projects, active, one);
    order::lemma_sum_sorted(s.projects, store::by_name(), one);
}

/// Projects of one name are listed in the order in which they were registered.
pub proof fn namesakes_stand_as_registered(s: StoreModel, name: Seq<char>)
    ensures
        ({
            let so_called = |p: ProjectModel| p.name == name;
            s.by_name().filter(so_called) == s.projects.filter(so_called)
        }),
{
    let so_called = |p: ProjectModel| p.name == name;
    assert forall|a: ProjectModel, b: ProjectModel| so_called(a) && so_called(b) implies
        !#[trigger] (store::by_name())(a, b) by {
        text::lemma_precedes_total(a.name, b.name);
    }
    order::equal_elements_keep_their_order(s.projects, store::by_name(), so_called);
}

// --- identifiers ---------------------------------------------------------

/// A new identifier is one more than the largest in use, and the first is one.
pub proof fn identifiers_count_up(ids: Seq<int>)
    ensures
        store::next_id(ids) >= 1,
        forall|i: int| 0 <= i < ids.len() ==> #[trigger] ids[i] <= store::next_id(ids) - 1,
        store::next_id(ids) == 1 || ids.contains(store::next_id(ids) - 1),
    decreases ids.len(),
{
    store::lemma_next_id(ids);
    if ids.len() > 0 {
        let rest = ids.drop_last();
        identifiers_count_up(rest);
        assert(ids[ids.len() - 1] == ids.last());
        if ids.last() < store::next_id(rest) && store::next_id(rest) != 1 {
            let k = choose|k: int| 0 <= k < rest.len() && rest[k] == store::next_id(rest) - 1;
            assert(ids[k] == store::next_id(ids) - 1);
        }
    }
}

/// Rows get their identifiers from the table that they are written to.
pub proof fn rows_are_numbered_in_their_table(
    s: StoreModel,
    path: Seq<char>,
    name: Seq<char>,
    id: int,
    kind: Seq<char>,
    seen_at: i64,
    sha: Option<Seq<char>>,
    payload: Json,
    from: int,
    to: int,
    text: Seq<char>,
)
    ensures
        s.insert_event(id, kind, seen_at, sha, payload).1 == Ok::<bool, StoreError>(true)
            ==> s.insert_event(id, kind, seen_at, sha, payload).0.events.last().id
            == store::next_id(s.events.map_values(|e: StoredModel| e.id)),
        s.insert_digest(from, to, to, payload, text).1 matches Ok(number) ==> number
            == store::next_id(s.digests.map_values(|d: DigestRowModel| d.id)) && s.insert_digest(
            from,
            to,
            to,
            payload,
            text,
        ).0.digests.last().id == number,
        !is_registered(s, path) ==> (s.upsert_project(path, name, seen_at).1 matches Ok(known)
            ==> known.0 == store::next_id(s.projects.map_values(|p: ProjectModel| p.id))),
{
    assert(store::event_ids(s.events) =~= s.events.map_values(|e: StoredModel| e.id));
    assert(store::digest_ids(s.digests) =~= s.digests.map_values(|d: DigestRowModel| d.id));
    assert(store::project_ids(s.projects) =~= s.projects.map_values(|p: ProjectModel| p.id));
    order::lemma_position(s.projects, store::with_path(path));
    if let Some(i) = order::position(s.projects, store::with_path(path)) {
        assert((store::with_path(path))(s.projects[i]));
        assert(s.projects[i].path == path);
    }
}

} // verus!
