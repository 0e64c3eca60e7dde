//! What a search for projects writes to the journal, and which projects
//! changes belong to.

use crate::collector;
use crate::collector_laws;
use crate::discovery;
use crate::discovery::{FoundModel, PartModel};
use crate::journal_laws;
use crate::json;
use crate::order;
use crate::period_laws;
use crate::scan_laws;
use crate::store;
use crate::store::{ProjectModel, StoreModel, StoredModel};
use vstd::prelude::*;

verus! {

/// Whether an event tells of a project at a path.
pub open spec fn tells_path(
    e: StoredModel,
    id: int,
    kind: Seq<char>,
    now: i64,
    path: Seq<char>,
) -> bool {
    scan_laws::is_plain_event(e, id, kind, now) && scan_laws::has_text(e.payload, "path"@, path)
}

/// Whether one of the events tells of a project at a path.
pub open spec fn told_of_path(
    events: Seq<StoredModel>,
    id: int,
    kind: Seq<char>,
    now: i64,
    path: Seq<char>,
) -> bool {
    exists|m: int| 0 <= m < events.len() && tells_path(#[trigger] events[m], id, kind, now, path)
}

/// Whether an event tells that one of the found projects was added: none was
/// there at its path.
pub open spec fn tells_addition(
    s: StoreModel,
    found: Seq<FoundModel>,
    index: Seq<(Seq<char>, int)>,
    now: i64,
    e: StoredModel,
) -> bool {
    exists|j: int|
        {
            &&& 0 <= j < found.len()
            &&& !journal_laws::is_watched(s, (#[trigger] found[j]).path)
            &&& tells_path(e, index[j].1, "project_added"@, now, found[j].path)
        }
}

/// Whether a project was found at the path, however it is written.
pub open spec fn is_found(found: Seq<FoundModel>, path: Seq<char>) -> bool {
    exists|i: int|
        0 <= i < found.len() && discovery::components((#[trigger] found[i]).path)
            == discovery::components(path)
}

/// Whether a project that was there is gone.
pub open spec fn is_lost(found: Seq<FoundModel>, p: ProjectModel) -> bool {
    p.removed_at is None && !is_found(found, p.path)
}

/// Projects that were there and are gone.
pub open spec fn lost(found: Seq<FoundModel>) -> spec_fn(ProjectModel) -> bool {
    |p: ProjectModel| is_lost(found, p)
}

/// Whether an event tells that one of the projects is gone.
pub open spec fn tells_loss(
    s: StoreModel,
    found: Seq<FoundModel>,
    now: i64,
    e: StoredModel,
) -> bool {
    exists|i: int|
        {
            &&& 0 <= i < s.projects.len()
            &&& is_lost(found, #[trigger] s.projects[i])
            &&& tells_path(e, s.projects[i].id, "project_removed"@, now, s.projects[i].path)
        }
}

/// Whether no two of the events are of one project.
pub open spec fn are_of_different_projects(events: Seq<StoredModel>) -> bool {
    forall|m: int, k: int|
        0 <= m < k < events.len() ==> (#[trigger] events[m]).project_id != (
        #[trigger] events[k]).project_id
}

/// Whether the journal `t` tells, beyond what `s` holds, which projects came
/// and which went, each once, and of nothing else. Where `s` knows no project
/// nothing is told: all are new then.
pub open spec fn tells_search(
    s: StoreModel,
    t: StoreModel,
    found: Seq<FoundModel>,
    index: Seq<(Seq<char>, int)>,
    now: i64,
) -> bool {
    let new = scan_laws::fresh(s, t);
    &&& scan_laws::grows(s, t)
    &&& s.projects.len() == 0 ==> new.len() == 0
    &&& forall|m: int|
        0 <= m < new.len() ==> tells_addition(s, found, index, now, #[trigger] new[m])
            || tells_loss(s, found, now, new[m])
    &&& s.projects.len() > 0 ==> forall|j: int|
        0 <= j < found.len() && !journal_laws::is_watched(s, (#[trigger] found[j]).path)
            ==> told_of_path(new, index[j].1, "project_added"@, now, found[j].path)
    &&& are_of_different_projects(new.filter(scan_laws::is_kind("project_added"@)))
    &&& forall|i: int|
        0 <= i < s.projects.len() && is_lost(found, #[trigger] s.projects[i]) ==> told_of_path(
            new,
            s.projects[i].id,
            "project_removed"@,
            now,
            s.projects[i].path,
        )
    &&& new.filter(scan_laws::is_kind("project_removed"@)).len() == s.projects.filter(
        lost(found),
    ).len()
}

proof fn lemma_path_field(path: Seq<char>)
    ensures
        scan_laws::has_text(collector::path_payload(path), "path"@, path),
{
}

proof fn lemma_kinds()
    ensures
        "project_added"@ != "project_removed"@,
{
    reveal_strlit("project_added");
    reveal_strlit("project_removed");
    assert("project_added"@.len() == 13 && "project_removed"@.len() == 15);
}

proof fn lemma_told_in_part(
    a: Seq<StoredModel>,
    b: Seq<StoredModel>,
    id: int,
    kind: Seq<char>,
    now: i64,
    path: Seq<char>,
)
    requires
        told_of_path(a, id, kind, now, path) || told_of_path(b, id, kind, now, path),
    ensures
        told_of_path(a + b, id, kind, now, path),
{
    if told_of_path(a, id, kind, now, path) {
        let m = choose|m: int|
            0 <= m < a.len() && tells_path(#[trigger] a[m], id, kind, now, path);
        assert((a + b)[m] == a[m]);
    } else {
        let m = choose|m: int|
            0 <= m < b.len() && tells_path(#[trigger] b[m], id, kind, now, path);
        assert((a + b)[a.len() + m] == b[m]);
    }
}

/// After registering, a project is there at a path if one was or one was
/// found.
proof fn lemma_watched(
    s: StoreModel,
    found: Seq<FoundModel>,
    now: i64,
    first_run: bool,
    path: Seq<char>,
)
    requires
        s.wf(),
        collector::registered(s, found, now, first_run).1 is Ok,
    ensures
        journal_laws::is_watched(collector::registered(s, found, now, first_run).0, path) <==> (
        journal_laws::is_watched(s, path) || collector_laws::has_path(found, path)),
{
    collector_laws::lemma_registered(s, found, now, first_run);
    let (t, r) = collector::registered(s, found, now, first_run);
    let index = r->Ok_0;
    if collector_laws::has_path(found, path) {
        let j = choose|j: int| 0 <= j < found.len() && (#[trigger] found[j]).path == path;
        assert(index[j].0 == path);
        let k = choose|k: int|
            0 <= k < t.projects.len() && (#[trigger] t.projects[k]).path == index[j].0
                && t.projects[k].id == index[j].1 && t.projects[k].removed_at is None;
        assert(t.projects[k].path == path);
    } else {
        if journal_laws::is_watched(t, path) {
            let k = choose|k: int|
                0 <= k < t.projects.len() && (#[trigger] t.projects[k]).path == path
                    && t.projects[k].removed_at is None;
            assert(s.projects[k].path == path);
        }
        if journal_laws::is_watched(s, path) {
            let k = choose|k: int|
                0 <= k < s.projects.len() && (#[trigger] s.projects[k]).path == path
                    && s.projects[k].removed_at is None;
            assert(t.projects[k].path == path);
        }
    }
}

/// What registering writes.
proof fn lemma_additions(s: StoreModel, found: Seq<FoundModel>, now: i64)
    requires
        s.wf(),
        collector::registered(s, found, now, false).1 is Ok,
        collector::additions_are_kept(s, found, now, false),
    ensures
        ({
            let (t, r) = collector::registered(s, found, now, false);
            let new = scan_laws::fresh(s, t);
            &&& scan_laws::grows(s, t)
            &&& forall|m: int|
                0 <= m < new.len() ==> tells_addition(s, found, r->Ok_0, now, #[trigger] new[m])
            &&& forall|j: int|
                0 <= j < found.len() && !journal_laws::is_watched(s, (#[trigger] found[j]).path)
                    ==> told_of_path(new, r->Ok_0[j].1, "project_added"@, now, found[j].path)
            &&& are_of_different_projects(new)
        }),
    decreases found.len(),
{
    collector_laws::lemma_registered(s, found, now, false);
    let (v, last) = collector::registered(s, found, now, false);
    let index = last->Ok_0;
    if found.len() > 0 {
        let rest = found.drop_last();
        let f = found.last();
        let n: int = rest.len() as int;
        lemma_additions(s, rest, now);
        collector_laws::lemma_registered(s, rest, now, false);
        lemma_watched(s, rest, now, false, f.path);
        let (t, r) = collector::registered(s, rest, now, false);
        let earlier = r->Ok_0;
        journal_laws::registering_watches_the_path(t, f.path, f.name, now);
        store::upsert_keeps_rules(t, f.path, f.name, now);
        let (u, upserted) = t.upsert_project(f.path, f.name, now);
        let (id, created) = upserted->Ok_0;
        let payload = collector::path_payload(f.path);
        assert(scan_laws::grows(t, u));
        if created {
            scan_laws::lemma_inserted(u, id, "project_added"@, now, None, payload);
            lemma_path_field(f.path);
        }
        assert(index == earlier.push((f.path, id)));
        scan_laws::lemma_fresh(t, u, v);
        scan_laws::lemma_fresh(s, t, v);
        let old = scan_laws::fresh(s, t);
        let more = scan_laws::fresh(t, v);
        let new = scan_laws::fresh(s, v);
        assert(scan_laws::fresh(t, u).len() == 0);
        assert(more =~= scan_laws::fresh(u, v));
        assert(created ==> more.len() == 1 && tells_path(
            more[0],
            id,
            "project_added"@,
            now,
            f.path,
        ));
        assert(!created ==> more.len() == 0);
        assert forall|m: int| 0 <= m < new.len() implies tells_addition(
            s,
            found,
            index,
            now,
            #[trigger] new[m],
        ) by {
            if m < old.len() {
                assert(new[m] == old[m]);
                assert(tells_addition(s, rest, earlier, now, old[m]));
                let j = choose|j: int|
                    {
                        &&& 0 <= j < rest.len()
                        &&& !journal_laws::is_watched(s, (#[trigger] rest[j]).path)
                        &&& tells_path(
                            old[m],
                            earlier[j].1,
                            "project_added"@,
                            now,
                            rest[j].path,
                        )
                    };
                assert(found[j] == rest[j] && index[j] == earlier[j]);
            } else {
                assert(new[m] == more[0]);
                assert(found[n] == f && index[n].1 == id);
            }
        }
        assert forall|j: int|
            0 <= j < found.len() && !journal_laws::is_watched(s, (#[trigger] found[j]).path) implies
            told_of_path(new, index[j].1, "project_added"@, now, found[j].path) by {
            if j < n {
                assert(found[j] == rest[j] && index[j] == earlier[j]);
                lemma_told_in_part(
                    old,
                    more,
                    index[j].1,
                    "project_added"@,
                    now,
                    found[j].path,
                );
            } else if created {
                assert(tells_path(more[0], id, "project_added"@, now, f.path));
                lemma_told_in_part(old, more, id, "project_added"@, now, f.path);
            } else {
                assert(collector_laws::has_path(rest, f.path));
                let k = choose|k: int| 0 <= k < rest.len() && (#[trigger] rest[k]).path == f.path;
                assert(told_of_path(old, earlier[k].1, "project_added"@, now, f.path));
                assert(earlier[k].0 == f.path);
                let a = choose|a: int|
                    0 <= a < t.projects.len() && (#[trigger] t.projects[a]).path == earlier[k].0
                        && t.projects[a].id == earlier[k].1 && t.projects[a].removed_at is None;
                order::lemma_position(t.projects, store::with_path(f.path));
                let b = order::position(t.projects, store::with_path(f.path))->Some_0;
                assert((store::with_path(f.path))(t.projects[a]));
                if b < a {
                    assert((store::other_project())(t.projects[b], t.projects[a]));
                }
                assert(id == earlier[k].1);
                lemma_told_in_part(old, more, id, "project_added"@, now, f.path);
            }
        }
        assert forall|m: int, k: int| 0 <= m < k < new.len() implies (
        #[trigger] new[m]).project_id != (#[trigger] new[k]).project_id by {
            assert(new[m] == old[m]);
            if k < old.len() {
                assert(new[k] == old[k]);
            } else {
                assert(new[k] == more[0]);
                assert(tells_addition(s, rest, earlier, now, old[m]));
                let j = choose|j: int|
                    {
                        &&& 0 <= j < rest.len()
                        &&& !journal_laws::is_watched(s, (#[trigger] rest[j]).path)
                        &&& tells_path(
                            old[m],
                            earlier[j].1,
                            "project_added"@,
                            now,
                            rest[j].path,
                        )
                    };
                assert(earlier[j].0 == rest[j].path);
                let a = choose|a: int|
                    0 <= a < t.projects.len() && (#[trigger] t.projects[a]).path == earlier[j].0
                        && t.projects[a].id == earlier[j].1 && t.projects[a].removed_at is None;
                if earlier[j].1 == id {
                    order::lemma_position(t.projects, store::with_path(f.path));
                    match order::position(t.projects, store::with_path(f.path)) {
                        Some(b) => {
                            assert(t.projects[b].id == id);
                            if a < b {
                                assert((store::other_project())(t.projects[a], t.projects[b]));
                            } else if b < a {
                                assert((store::other_project())(t.projects[b], t.projects[a]));
                            }
                        },
                        None => {
                            let b = t.projects.len() as int;
                            assert(u.projects[a].id == id && u.projects[b].id == id);
                            assert((store::other_project())(u.projects[a], u.projects[b]));
                        },
                    }
                }
            }
        }
    }
}

/// What marking projects as gone writes.
proof fn lemma_losses(s: StoreModel, absent: Seq<ProjectModel>, now: i64)
    requires
        collector::departed(s, absent, now).1 is Ok,
        collector::removals_are_kept(absent),
    ensures
        ({
            let t = collector::departed(s, absent, now).0;
            let new = scan_laws::fresh(s, t);
            &&& scan_laws::grows(s, t)
            &&& new.len() == absent.len()
            &&& forall|k: int|
                0 <= k < absent.len() ==> tells_path(
                    #[trigger] new[k],
                    absent[k].id,
                    "project_removed"@,
                    now,
                    absent[k].path,
                )
        }),
    decreases absent.len(),
{
    if absent.len() > 0 {
        let rest = absent.drop_last();
        let p = absent.last();
        assert forall|i: int| 0 <= i < rest.len() implies json::is_kept(
            collector::path_payload((#[trigger] rest[i]).path),
        ) by {
            assert(rest[i] == absent[i]);
        }
        lemma_losses(s, rest, now);
        let t = collector::departed(s, rest, now).0;
        let u = t.mark_removed(p.id, now);
        let payload = collector::path_payload(p.path);
        assert(absent[absent.len() - 1] == p);
        assert(json::is_kept(payload));
        scan_laws::lemma_inserted(u, p.id, "project_removed"@, now, None, payload);
        lemma_path_field(p.path);
        let v = u.insert_event(p.id, "project_removed"@, now, None, payload).0;
        assert(u.events == t.events);
        assert(collector::departed(s, absent, now).0 == v);
        assert(scan_laws::grows(t, v));
        assert(scan_laws::fresh(t, v) == scan_laws::fresh(u, v));
        scan_laws::lemma_fresh(s, t, v);
        let new = scan_laws::fresh(s, v);
        assert forall|k: int| 0 <= k < absent.len() implies tells_path(
            #[trigger] new[k],
            absent[k].id,
            "project_removed"@,
            now,
            absent[k].path,
        ) by {
            if k < rest.len() {
                assert(new[k] == scan_laws::fresh(s, t)[k]);
                assert(rest[k] == absent[k]);
            } else {
                assert(new[k] == scan_laws::fresh(t, v)[0]);
            }
        }
    }
}

/// What a search writes: an event for each project that came and each that
/// went, once, with its path, and nothing else; nothing at all where no
/// project was known before.
pub proof fn a_search_tells_who_came_and_went(s: StoreModel, found: Seq<FoundModel>, now: i64)
    requires
        s.wf(),
        collector::search_is_kept(s, found, now),
        collector::reconciled(s, found, now).1 is Ok,
    ensures
        ({
            let (t, r) = collector::reconciled(s, found, now);
            tells_search(s, t, found, r->Ok_0, now)
        }),
{
    lemma_kinds();
    let known = s.by_name();
    order::sorted_is_permutation(s.projects, store::by_name());
    let first_run = known.len() == 0;
    let absent = known.filter(collector::is_absent(found));
    let (t, r) = collector::registered(s, found, now, first_run);
    let index = r->Ok_0;
    collector_laws::lemma_registered(s, found, now, first_run);
    if !first_run {
        lemma_additions(s, found, now);
    }
    let u = collector::departed(t, absent, now).0;
    lemma_losses(t, absent, now);
    scan_laws::lemma_fresh(s, t, u);
    let a = scan_laws::fresh(s, t);
    let b = scan_laws::fresh(t, u);
    let new = scan_laws::fresh(s, u);
    order::lemma_filter_contains(known, collector::is_absent(found));
    assert forall|p: ProjectModel| #[trigger]
        collector::is_absent(found)(p) == lost(found)(p) by {
        if collector::is_present(found, p.path) {
            let i = choose|i: int|
                0 <= i < found.len() && discovery::same_path((#[trigger] found[i]).path, p.path);
            assert(discovery::components(found[i].path) == discovery::components(p.path));
        }
        if is_found(found, p.path) {
            let i = choose|i: int|
                0 <= i < found.len() && discovery::components((#[trigger] found[i]).path)
                    == discovery::components(p.path);
            assert(discovery::same_path(found[i].path, p.path));
        }
    }
    assert forall|m: int| 0 <= m < new.len() implies tells_addition(
        s,
        found,
        index,
        now,
        #[trigger] new[m],
    ) || tells_loss(s, found, now, new[m]) by {
        if m < a.len() {
            assert(new[m] == a[m]);
        } else {
            let k = m - a.len();
            assert(new[m] == b[k]);
            assert(absent.contains(absent[k]));
            assert(known.contains(absent[k]));
            assert(s.projects.contains(absent[k]));
            let i = choose|i: int| 0 <= i < s.projects.len() && s.projects[i] == absent[k];
            assert(lost(found)(absent[k]));
            assert(is_lost(found, s.projects[i]));
        }
    }
    if s.projects.len() > 0 {
        assert forall|j: int|
            0 <= j < found.len() && !journal_laws::is_watched(s, (#[trigger] found[j]).path) implies
            told_of_path(new, index[j].1, "project_added"@, now, found[j].path) by {
            lemma_told_in_part(a, b, index[j].1, "project_added"@, now, found[j].path);
        }
    }
    assert forall|i: int| 0 <= i < s.projects.len() && is_lost(found, #[trigger] s.projects[i]) implies
        told_of_path(new, s.projects[i].id, "project_removed"@, now, s.projects[i].path) by {
        let p = s.projects[i];
        assert(s.projects.contains(p));
        assert(known.contains(p));
        assert(lost(found)(p));
        assert(absent.contains(p));
        let k = choose|k: int| 0 <= k < absent.len() && absent[k] == p;
        assert(tells_path(b[k], p.id, "project_removed"@, now, p.path));
        lemma_told_in_part(a, b, p.id, "project_removed"@, now, p.path);
    }
    if first_run {
        assert(known.filter(collector::is_absent(found)).len() == 0) by {
            order::lemma_filter_empty(known, collector::is_absent(found));
        }
        assert(t.events == s.events);
        assert(a.len() == 0);
    }
    assert forall|m: int| 0 <= m < a.len() implies (#[trigger] a[m]).kind == "project_added"@ by {
        assert(tells_addition(s, found, index, now, a[m]));
    }
    assert forall|m: int| 0 <= m < b.len() implies (#[trigger] b[m]).kind == "project_removed"@ by {
        assert(tells_path(b[m], absent[m].id, "project_removed"@, now, absent[m].path));
    }
    let added = scan_laws::is_kind("project_added"@);
    let removed = scan_laws::is_kind("project_removed"@);
    scan_laws::lemma_no_kind(a, "project_removed"@);
    scan_laws::lemma_no_kind(b, "project_added"@);
    scan_laws::lemma_all_kept(a, added);
    scan_laws::lemma_all_kept(b, removed);
    Seq::filter_distributes_over_add(a, b, added);
    Seq::filter_distributes_over_add(a, b, removed);
    assert(new.filter(added) =~= a);
    scan_laws::lemma_same_filter(known, collector::is_absent(found), lost(found));
    let one = |p: ProjectModel|
        if lost(found)(p) {
            1nat
        } else {
            0
        };
    period_laws::lemma_marks(known, lost(found), one);
    period_laws::lemma_marks(s.projects, lost(found), one);
    order::lemma_sum_sorted(s.projects, store::by_name(), one);
}

// --- changes -------------------------------------------------------------

/// Whether a path belongs to a project of the index: it lies under the
/// project's path, and under that of no deeper one.
pub open spec fn belongs(index: Seq<(Seq<char>, int)>, k: int, path: Seq<char>) -> bool {
    &&& discovery::components(index[k].0).is_prefix_of(discovery::components(path))
    &&& forall|j: int|
        0 <= j < index.len() && discovery::components((#[trigger] index[j]).0).is_prefix_of(
            discovery::components(path),
        ) ==> discovery::components(index[j].0).len() <= discovery::components(index[k].0).len()
}

/// Whether a path lies in no project of the index.
pub open spec fn is_outside(index: Seq<(Seq<char>, int)>, path: Seq<char>) -> bool {
    forall|j: int|
        0 <= j < index.len() ==> !discovery::components((#[trigger] index[j]).0).is_prefix_of(
            discovery::components(path),
        )
}

/// A changed path touches the deepest project that it lies in, and one that
/// lies in none touches none. Where it goes through `.git` then, new projects
/// are looked for.
pub proof fn a_change_touches_the_deepest_project(
    index: Seq<(Seq<char>, int)>,
    path: Seq<char>,
)
    ensures
        collector::owner_of(index, path) is None <==> is_outside(index, path),
        collector::owner_of(index, path) matches Some(id) ==> exists|k: int|
            0 <= k < index.len() && (#[trigger] index[k]).1 == id && belongs(index, k, path),
        collector::shows_new_repository(index, seq![path]) <==> is_outside(index, path) && exists|
            i: int,
        |
            0 <= i < discovery::components(path).len() && #[trigger] discovery::components(path)[i]
                == PartModel::Normal(".git"@),
{
    let roots = index.map_values(|p: (Seq<char>, int)| p.0);
    discovery::the_deepest_project_owns_the_path(roots, path);
    assert forall|j: int| 0 <= j < index.len() implies #[trigger] roots[j] == index[j].0 by {}
    match discovery::owner_index(roots, path) {
        Some(k) => {
            assert(discovery::lies_under(path, roots[k]));
            assert(discovery::components(index[k].0).is_prefix_of(discovery::components(path)));
            assert forall|j: int|
                0 <= j < index.len() && discovery::components(
                    (#[trigger] index[j]).0,
                ).is_prefix_of(discovery::components(path)) implies discovery::components(
                index[j].0,
            ).len() <= discovery::components(index[k].0).len() by {
                assert(discovery::lies_under(path, roots[j]));
            }
            assert(belongs(index, k, path));
        },
        None => {
            assert forall|j: int| 0 <= j < index.len() implies !discovery::components(
                (#[trigger] index[j]).0,
            ).is_prefix_of(discovery::components(path)) by {
                assert(!discovery::lies_under(path, roots[j]));
            }
        },
    }
    assert(seq![path][0] == path);
    let parts = discovery::components(path);
    if parts.contains(PartModel::Normal(".git"@)) {
        let i = choose|i: int| 0 <= i < parts.len() && parts[i] == PartModel::Normal(".git"@);
        assert(parts[i] == PartModel::Normal(".git"@));
    }
}

/// The projects of several changed paths are those of each, and new projects
/// are looked for where one of them calls for it.
pub proof fn changes_add_up(
    index: Seq<(Seq<char>, int)>,
    some: Seq<Seq<char>>,
    more: Seq<Seq<char>>,
    project: (Seq<char>, int),
)
    ensures
        collector::is_touched(index, some + more)(project) <==> collector::is_touched(index, some)(
            project,
        ) || collector::is_touched(index, more)(project),
        collector::shows_new_repository(index, some + more) <==> collector::shows_new_repository(
            index,
            some,
        ) || collector::shows_new_repository(index, more),
        !collector::is_touched(index, Seq::empty())(project),
        !collector::shows_new_repository(index, Seq::empty()),
{
    let all = some + more;
    assert forall|i: int| 0 <= i < some.len() implies #[trigger] some[i] == all[i] by {}
    assert forall|i: int| 0 <= i < more.len() implies #[trigger] more[i] == all[some.len()
        + i] by {}
    assert forall|i: int| 0 <= i < all.len() implies #[trigger] all[i] == (if i < some.len() {
        some[i]
    } else {
        more[i - some.len()]
    }) by {}
    if collector::is_touched(index, all)(project) {
        let i = choose|i: int|
            0 <= i < all.len() && collector::owner_of(index, #[trigger] all[i]) == Some(project.1);
        if i < some.len() {
            assert(some[i] == all[i]);
        } else {
            assert(more[i - some.len()] == all[i]);
        }
    }
    if collector::is_touched(index, some)(project) {
        let i = choose|i: int|
            0 <= i < some.len() && collector::owner_of(index, #[trigger] some[i]) == Some(
                project.1,
            );
        assert(all[i] == some[i]);
    }
    if collector::is_touched(index, more)(project) {
        let i = choose|i: int|
            0 <= i < more.len() && collector::owner_of(index, #[trigger] more[i]) == Some(
                project.1,
            );
        assert(all[some.len() + i] == more[i]);
    }
    if collector::shows_new_repository(index, all) {
        let i = choose|i: int|
            0 <= i < all.len() && collector::owner_of(index, #[trigger] all[i]) is None
                && collector::is_in_git(all[i]);
        if i < some.len() {
            assert(some[i] == all[i]);
        } else {
            assert(more[i - some.len()] == all[i]);
        }
    }
    if collector::shows_new_repository(index, some) {
        let i = choose|i: int|
            0 <= i < some.len() && collector::owner_of(index, #[trigger] some[i]) is None
                && collector::is_in_git(some[i]);
        assert(all[i] == some[i]);
    }
    if collector::shows_new_repository(index, more) {
        let i = choose|i: int|
            0 <= i < more.len() && collector::owner_of(index, #[trigger] more[i]) is None
                && collector::is_in_git(more[i]);
        assert(all[some.len() + i] == more[i]);
    }
}

/// A project is touched by a path alone if and only if the path is its own.
pub proof fn a_project_is_touched_by_its_own_paths(
    index: Seq<(Seq<char>, int)>,
    path: Seq<char>,
    project: (Seq<char>, int),
)
    ensures
        collector::is_touched(index, seq![path])(project) <==> collector::owner_of(index, path)
            == Some(project.1),
{
    assert(seq![path][0] == path);
}

} // verus!
