//! What holds of scans across operations.

use crate::collector;
use crate::collector::{AnswersModel, Failure, StepModel};
use crate::digest;
use crate::digest::CommitBriefModel;
use crate::discovery;
use crate::discovery::FoundModel;
use crate::git::CommitModel;
use crate::json;
use crate::json::Json;
use crate::order;
use crate::store;
use crate::store::{
    EventModel, ProjectModel, RefModel, SnapshotModel, StoreError, StoreModel,
};
use crate::store_laws;
use crate::text;
use crate::time;
use vstd::prelude::*;

verus! {

/// Whether two lists hold the same projects, as far as identifier, path, name
/// and presence go.
pub open spec fn same_projects(a: Seq<ProjectModel>, b: Seq<ProjectModel>) -> bool {
    &&& a.len() == b.len()
    &&& forall|i: int|
        0 <= i < a.len() ==> {
            &&& (#[trigger] a[i]).id == b[i].id
            &&& a[i].path == b[i].path
            &&& a[i].name == b[i].name
            &&& a[i].removed_at == b[i].removed_at
        }
}

/// The same projects are found under the same keys.
proof fn lemma_same_found(s: StoreModel, t: StoreModel, key: Seq<char>)
    requires
        same_projects(s.projects, t.projects),
    ensures
        order::position(s.projects, store::active_called(key)) == order::position(
            t.projects,
            store::active_called(key),
        ),
        order::position(s.projects, store::called(key)) == order::position(
            t.projects,
            store::called(key),
        ),
        forall|id: int|
            order::position(s.projects, store::with_id(id)) == #[trigger] order::position(
                t.projects,
                store::with_id(id),
            ),
{
    order::lemma_position_same(s.projects, t.projects, store::active_called(key));
    order::lemma_position_same(s.projects, t.projects, store::called(key));
    assert forall|id: int|
        order::position(s.projects, store::with_id(id)) == #[trigger] order::position(
            t.projects,
            store::with_id(id),
        ) by {
        order::lemma_position_same(s.projects, t.projects, store::with_id(id));
    }
}

/// What writing an event leaves as it was.
proof fn lemma_event(
    s: StoreModel,
    id: int,
    kind: Seq<char>,
    now: i64,
    sha: Option<Seq<char>>,
    payload: Json,
)
    requires
        s.wf(),
    ensures
        s.insert_event(id, kind, now, sha, payload).0.wf(),
        s.insert_event(id, kind, now, sha, payload).0.refs == s.refs,
        s.insert_event(id, kind, now, sha, payload).0.knows(id) == s.knows(id),
        same_projects(s.projects, s.insert_event(id, kind, now, sha, payload).0.projects),
{
    store::insert_event_keeps_rules(s, id, kind, now, sha, payload);
    order::lemma_position(s.projects, store::with_id(id));
}

/// What writing commits leaves as it was.
proof fn lemma_commits(
    s: StoreModel,
    id: int,
    now: i64,
    branch: Seq<char>,
    commits: Seq<CommitModel>,
)
    requires
        s.wf(),
    ensures
        collector::commits_recorded(s, id, now, branch, commits).0.wf(),
        collector::commits_recorded(s, id, now, branch, commits).0.refs == s.refs,
        collector::commits_recorded(s, id, now, branch, commits).0.knows(id) == s.knows(id),
        same_projects(
            s.projects,
            collector::commits_recorded(s, id, now, branch, commits).0.projects,
        ),
    decreases commits.len(),
{
    if commits.len() > 0 {
        lemma_commits(s, id, now, branch, commits.drop_last());
        let (t, r) = collector::commits_recorded(s, id, now, branch, commits.drop_last());
        let c = commits.last();
        if r is Ok {
            lemma_event(
                t,
                id,
                "commit"@,
                now,
                Some(c.sha),
                collector::commit_payload(c, branch),
            );
        }
    }
}

/// The row of a tip.
pub open spec fn tip(id: int, branch: Seq<char>, sha: Seq<char>) -> RefModel {
    RefModel { project_id: id, name: branch, sha }
}

/// What taking in a branch does to tips.
proof fn lemma_step(
    s: StoreModel,
    id: int,
    now: i64,
    step: StepModel,
    log: Result<Seq<CommitModel>, Seq<char>>,
)
    requires
        s.wf(),
        s.knows(id),
        collector::step_recorded(s, id, now, step, log).1 is Ok,
    ensures
        collector::step_recorded(s, id, now, step, log).0.wf(),
        collector::step_recorded(s, id, now, step, log).0.knows(id),
        same_projects(s.projects, collector::step_recorded(s, id, now, step, log).0.projects),
        forall|r: RefModel| #[trigger]
            collector::step_recorded(s, id, now, step, log).0.refs.contains(r) <==> if r.project_id
                == id && r.name == step.branch {
                r.sha == step.sha
            } else {
                s.refs.contains(r)
            },
{
    let t = if step.created {
        s.insert_event(
            id,
            "branch_created"@,
            now,
            None,
            collector::branch_payload(step.branch, step.sha),
        ).0
    } else {
        s
    };
    lemma_event(
        s,
        id,
        "branch_created"@,
        now,
        None,
        collector::branch_payload(step.branch, step.sha),
    );
    let commits = log->Ok_0.reverse();
    lemma_commits(t, id, now, step.branch, commits);
    let u = collector::commits_recorded(t, id, now, step.branch, commits).0;
    store_laws::a_set_tip_is_read_back(u, id, step.branch, step.sha);
    store::set_ref_keeps_rules(u, id, step.branch, step.sha);
    assert(collector::step_recorded(s, id, now, step, log).0 == u.set_ref(
        id,
        step.branch,
        step.sha,
    ).0);
    assert(u.refs == s.refs);
}

/// Whether no two steps take in the same branch.
pub open spec fn distinct_steps(steps: Seq<StepModel>) -> bool {
    forall|i: int, j: int|
        0 <= i < j < steps.len() ==> (#[trigger] steps[i]).branch != (#[trigger] steps[j]).branch
}

/// Whether one of the steps takes in the branch.
pub open spec fn takes_in(steps: Seq<StepModel>, branch: Seq<char>) -> bool {
    exists|i: int| 0 <= i < steps.len() && (#[trigger] steps[i]).branch == branch
}

/// What taking in branches does to tips.
proof fn lemma_steps(
    s: StoreModel,
    id: int,
    now: i64,
    steps: Seq<StepModel>,
    logs: Seq<Result<Seq<CommitModel>, Seq<char>>>,
)
    requires
        s.wf(),
        s.knows(id),
        distinct_steps(steps),
        collector::steps_recorded(s, id, now, steps, logs).1 is Ok,
    ensures
        collector::steps_recorded(s, id, now, steps, logs).0.wf(),
        collector::steps_recorded(s, id, now, steps, logs).0.knows(id),
        same_projects(s.projects, collector::steps_recorded(s, id, now, steps, logs).0.projects),
        forall|i: int|
            0 <= i < steps.len() ==> collector::steps_recorded(s, id, now, steps, logs).0.refs.contains(
                tip(id, (#[trigger] steps[i]).branch, steps[i].sha),
            ),
        forall|r: RefModel|
            !(r.project_id == id && takes_in(steps, r.name)) ==> (
            #[trigger] collector::steps_recorded(s, id, now, steps, logs).0.refs.contains(r)
                <==> s.refs.contains(r)),
    decreases steps.len(),
{
    if steps.len() > 0 {
        let rest = steps.drop_last();
        let step = steps.last();
        let log = logs[steps.len() - 1];
        assert forall|i: int, j: int| 0 <= i < j < rest.len() implies (#[trigger] rest[i]).branch
            != (#[trigger] rest[j]).branch by {
            assert(rest[i] == steps[i] && rest[j] == steps[j]);
        }
        lemma_steps(s, id, now, rest, logs);
        let t = collector::steps_recorded(s, id, now, rest, logs).0;
        lemma_step(t, id, now, step, log);
        let u = collector::step_recorded(t, id, now, step, log).0;
        assert(collector::steps_recorded(s, id, now, steps, logs).0 == u);
        assert forall|i: int| 0 <= i < steps.len() implies u.refs.contains(
            tip(id, (#[trigger] steps[i]).branch, steps[i].sha),
        ) by {
            if i < rest.len() {
                assert(rest[i] == steps[i]);
                assert(steps[i].branch != steps[steps.len() - 1].branch);
                assert(t.refs.contains(tip(id, rest[i].branch, rest[i].sha)));
            }
        }
        assert forall|r: RefModel| !(r.project_id == id && takes_in(steps, r.name)) implies (
        #[trigger] u.refs.contains(r) <==> s.refs.contains(r)) by {
            if r.project_id == id {
                assert(steps[steps.len() - 1].branch != r.name);
                if takes_in(rest, r.name) {
                    let i = choose|i: int|
                        0 <= i < rest.len() && (#[trigger] rest[i]).branch == r.name;
                    assert(steps[i].branch == r.name);
                }
            }
            assert(t.refs.contains(r) <==> s.refs.contains(r));
        }
    }
}

/// Whether one of the rows is the branch's.
pub open spec fn names(rows: Seq<RefModel>, branch: Seq<char>) -> bool {
    exists|i: int| 0 <= i < rows.len() && (#[trigger] rows[i]).name == branch
}

/// What dropping branches does to tips.
proof fn lemma_gone(s: StoreModel, id: int, now: i64, gone: Seq<RefModel>)
    requires
        s.wf(),
        collector::gone_recorded(s, id, now, gone).1 is Ok,
    ensures
        collector::gone_recorded(s, id, now, gone).0.wf(),
        same_projects(s.projects, collector::gone_recorded(s, id, now, gone).0.projects),
        forall|r: RefModel| #[trigger]
            collector::gone_recorded(s, id, now, gone).0.refs.contains(r) <==> s.refs.contains(r)
                && !(r.project_id == id && names(gone, r.name)),
    decreases gone.len(),
{
    if gone.len() > 0 {
        let rest = gone.drop_last();
        let row = gone.last();
        lemma_gone(s, id, now, rest);
        let t = collector::gone_recorded(s, id, now, rest).0;
        let payload = collector::branch_payload(row.name, row.sha);
        lemma_event(t, id, "branch_deleted"@, now, None, payload);
        let u = t.insert_event(id, "branch_deleted"@, now, None, payload).0;
        store::delete_ref_keeps_rules(u, id, row.name);
        store_laws::a_dropped_branch_is_gone(u, id, row.name);
        let v = u.delete_ref(id, row.name);
        assert(collector::gone_recorded(s, id, now, gone).0 == v);
        assert forall|r: RefModel| #[trigger] v.refs.contains(r) <==> s.refs.contains(r) && !(
        r.project_id == id && names(gone, r.name)) by {
            assert(t.refs.contains(r) <==> s.refs.contains(r) && !(r.project_id == id && names(
                rest,
                r.name,
            )));
            if names(rest, r.name) {
                let i = choose|i: int| 0 <= i < rest.len() && (#[trigger] rest[i]).name == r.name;
                assert(gone[i].name == r.name);
            }
            if names(gone, r.name) {
                let i = choose|i: int| 0 <= i < gone.len() && (#[trigger] gone[i]).name == r.name;
                if i < rest.len() {
                    assert(rest[i].name == r.name);
                }
            }
            if r.name == row.name {
                assert(gone[gone.len() - 1].name == r.name);
            }
        }
    }
}

/// Whether no two heads are of the same branch.
pub open spec fn distinct_heads(heads: Seq<(Seq<char>, Seq<char>)>) -> bool {
    forall|i: int, j: int|
        0 <= i < j < heads.len() ==> (#[trigger] heads[i]).0 != (#[trigger] heads[j]).0
}

/// What remembering tips does to tips.
proof fn lemma_tips(s: StoreModel, id: int, heads: Seq<(Seq<char>, Seq<char>)>)
    requires
        s.wf(),
        distinct_heads(heads),
        collector::tips_remembered(s, id, heads).1 is Ok,
    ensures
        collector::tips_remembered(s, id, heads).0.wf(),
        collector::tips_remembered(s, id, heads).0.projects == s.projects,
        collector::tips_remembered(s, id, heads).0.events == s.events,
        forall|i: int|
            0 <= i < heads.len() ==> collector::tips_remembered(s, id, heads).0.refs.contains(
                tip(id, (#[trigger] heads[i]).0, heads[i].1),
            ),
        forall|r: RefModel|
            !(r.project_id == id && heads.map_values(collector::branch_of()).contains(r.name)) ==> (
            #[trigger] collector::tips_remembered(s, id, heads).0.refs.contains(r)
                <==> s.refs.contains(r)),
    decreases heads.len(),
{
    if heads.len() > 0 {
        let rest = heads.drop_last();
        let head = heads.last();
        assert forall|i: int, j: int| 0 <= i < j < rest.len() implies (#[trigger] rest[i]).0 != (
        #[trigger] rest[j]).0 by {
            assert(rest[i] == heads[i] && rest[j] == heads[j]);
        }
        lemma_tips(s, id, rest);
        let t = collector::tips_remembered(s, id, rest).0;
        let u = t.set_ref(id, head.0, head.1).0;
        store_laws::a_set_tip_is_read_back(t, id, head.0, head.1);
        store::set_ref_keeps_rules(t, id, head.0, head.1);
        assert(collector::tips_remembered(s, id, heads).0 == u);
        assert forall|i: int| 0 <= i < heads.len() implies u.refs.contains(
            tip(id, (#[trigger] heads[i]).0, heads[i].1),
        ) by {
            if i < rest.len() {
                assert(rest[i] == heads[i]);
                assert(heads[i].0 != heads[heads.len() - 1].0);
                assert(t.refs.contains(tip(id, rest[i].0, rest[i].1)));
            }
        }
        let branches = heads.map_values(collector::branch_of());
        assert forall|r: RefModel| !(r.project_id == id && branches.contains(r.name)) implies (
        #[trigger] u.refs.contains(r) <==> s.refs.contains(r)) by {
            if r.project_id == id {
                assert(branches[heads.len() - 1] == head.0);
                let before = rest.map_values(collector::branch_of());
                if before.contains(r.name) {
                    let i = choose|i: int| 0 <= i < before.len() && before[i] == r.name;
                    assert(branches[i] == r.name);
                }
            }
            assert(t.refs.contains(r) <==> s.refs.contains(r));
        }
    }
}

/// Whether the known tips of a project are exactly the heads.
pub open spec fn up_to_date(s: StoreModel, id: int, heads: Seq<(Seq<char>, Seq<char>)>) -> bool {
    &&& forall|i: int| 0 <= i < heads.len() ==> s.refs.contains(tip(id, (#[trigger] heads[i]).0, heads[i].1))
    &&& forall|r: RefModel| #[trigger]
        s.refs.contains(r) && r.project_id == id ==> heads.map_values(
            collector::branch_of(),
        ).contains(r.name)
}

/// The known tip of a branch is the one in its row.
pub proof fn lemma_cursor(s: StoreModel, id: int, branch: Seq<char>)
    requires
        s.wf(),
    ensures
        match collector::cursor_of(s.refs_of(id), branch) {
            Some(sha) => s.refs.contains(tip(id, branch, sha)),
            None => forall|sha: Seq<char>| !#[trigger] s.refs.contains(tip(id, branch, sha)),
        },
        forall|sha: Seq<char>| #[trigger]
            s.refs.contains(tip(id, branch, sha)) ==> collector::cursor_of(s.refs_of(id), branch)
                == Some(sha),
{
    let cursors = s.refs_of(id);
    order::lemma_filter_contains(s.refs, store::is_ref_of(id));
    order::lemma_position(cursors, collector::tip_named(branch));
    match order::position(cursors, collector::tip_named(branch)) {
        Some(i) => {
            assert(cursors.contains(cursors[i]));
            assert(cursors[i] == tip(id, branch, cursors[i].sha));
        },
        None => {},
    }
    assert forall|sha: Seq<char>| #[trigger]
        s.refs.contains(tip(id, branch, sha)) implies collector::cursor_of(s.refs_of(id), branch)
        == Some(sha) by {
        let row = tip(id, branch, sha);
        assert(cursors.contains(row));
        let k = choose|k: int| 0 <= k < cursors.len() && cursors[k] == row;
        assert((collector::tip_named(branch))(cursors[k]));
        let i = order::position(cursors, collector::tip_named(branch))->Some_0;
        assert(cursors.contains(cursors[i]));
        let a = choose|a: int| 0 <= a < s.refs.len() && s.refs[a] == cursors[i];
        let b = choose|b: int| 0 <= b < s.refs.len() && s.refs[b] == row;
        if a < b {
            assert((store::other_branch())(s.refs[a], s.refs[b]));
        } else if b < a {
            assert((store::other_branch())(s.refs[b], s.refs[a]));
        }
    }
}

/// The branches to take in are heads, each at most once.
proof fn lemma_steps_of(heads: Seq<(Seq<char>, Seq<char>)>, cursors: Seq<RefModel>)
    requires
        distinct_heads(heads),
    ensures
        distinct_steps(collector::steps_of(heads, cursors)),
        forall|k: int|
            0 <= k < collector::steps_of(heads, cursors).len() ==> exists|i: int|
                0 <= i < heads.len() && (#[trigger] heads[i]).0 == (
                #[trigger] collector::steps_of(heads, cursors)[k]).branch && heads[i].1
                    == collector::steps_of(heads, cursors)[k].sha,
        forall|i: int|
            0 <= i < heads.len() && collector::cursor_of(cursors, (#[trigger] heads[i]).0) != Some(
                heads[i].1,
            ) ==> exists|k: int|
                0 <= k < collector::steps_of(heads, cursors).len() && (
                #[trigger] collector::steps_of(heads, cursors)[k]).branch == heads[i].0
                    && collector::steps_of(heads, cursors)[k].sha == heads[i].1,
{
    let steps = collector::steps_of(heads, cursors);
    let p = collector::is_moved(cursors);
    let q = collector::is_created(cursors);
    let moved = heads.filter(p);
    let created = heads.filter(q);
    order::lemma_kept_from(heads, p);
    order::lemma_kept_from(heads, q);
    let from_moved = order::kept_from(heads, p);
    let from_created = order::kept_from(heads, q);
    let n: int = moved.len() as int;
    assert forall|k: int| 0 <= k < steps.len() implies (#[trigger] steps[k]).branch == (if k < n {
        heads[from_moved[k]]
    } else {
        heads[from_created[k - n]]
    }).0 && steps[k].sha == (if k < n {
        heads[from_moved[k]]
    } else {
        heads[from_created[k - n]]
    }).1 by {
        if k < n {
            assert(moved[k] == heads[from_moved[k]]);
        } else {
            assert(created[k - n] == heads[from_created[k - n]]);
        }
    }
    assert forall|k: int| 0 <= k < steps.len() implies exists|i: int|
        0 <= i < heads.len() && (#[trigger] heads[i]).0 == (#[trigger] steps[k]).branch
            && heads[i].1 == steps[k].sha by {
        let i = if k < n {
            from_moved[k]
        } else {
            from_created[k - n]
        };
        assert(heads[i].0 == steps[k].branch);
    }
    assert forall|k: int, m: int| 0 <= k < m < steps.len() implies (#[trigger] steps[k]).branch != (
    #[trigger] steps[m]).branch by {
        if m < n {
            assert(from_moved[k] < from_moved[m]);
        } else if k >= n {
            assert(from_created[k - n] < from_created[m - n]);
        } else {
            let a = from_moved[k];
            let b = from_created[m - n];
            assert(p(moved[k]) && q(created[m - n]));
            assert(a != b);
            if a < b {
                assert(heads[a].0 != heads[b].0);
            } else {
                assert(heads[b].0 != heads[a].0);
            }
        }
    }
    order::lemma_filter_contains(heads, p);
    order::lemma_filter_contains(heads, q);
    assert forall|i: int|
        0 <= i < heads.len() && collector::cursor_of(cursors, (#[trigger] heads[i]).0) != Some(
            heads[i].1,
        ) implies exists|k: int|
        0 <= k < steps.len() && (#[trigger] steps[k]).branch == heads[i].0 && steps[k].sha
            == heads[i].1 by {
        assert(heads.contains(heads[i]));
        if p(heads[i]) {
            assert(moved.contains(heads[i]));
            let k = choose|k: int| 0 <= k < moved.len() && moved[k] == heads[i];
            assert(steps[k].branch == heads[i].0);
        } else {
            assert(created.contains(heads[i]));
            let k = choose|k: int| 0 <= k < created.len() && created[k] == heads[i];
            assert(steps[n + k].branch == heads[i].0);
        }
    }
}

/// Git is asked for no history that is known: every known tip is excluded, and
/// for a new branch the tips of the branches that were there too, so that a
/// commit made before the branch was is not the branch's.
pub proof fn known_history_is_excluded(
    heads: Seq<(Seq<char>, Seq<char>)>,
    cursors: Seq<RefModel>,
    k: int,
)
    requires
        0 <= k < collector::steps_of(heads, cursors).len(),
    ensures
        ({
            let step = collector::steps_of(heads, cursors)[k];
            &&& step.created <==> collector::cursor_of(cursors, step.branch) is None
            &&& forall|i: int|
                0 <= i < cursors.len() ==> step.exclude.contains((#[trigger] cursors[i]).sha)
            &&& step.created ==> forall|i: int|
                0 <= i < heads.len() && collector::cursor_of(cursors, (#[trigger] heads[i]).0)
                    is Some ==> step.exclude.contains(heads[i].1)
        }),
{
    let steps = collector::steps_of(heads, cursors);
    let step = steps[k];
    let moved = heads.filter(collector::is_moved(cursors));
    let created = heads.filter(collector::is_created(cursors));
    let existing = heads.filter(collector::is_existing(cursors));
    let tips = collector::known_tips(cursors);
    order::lemma_kept_from(heads, collector::is_moved(cursors));
    order::lemma_kept_from(heads, collector::is_created(cursors));
    if k < moved.len() {
        assert((collector::is_moved(cursors))(moved[k]));
        assert(step == (collector::step_for(false, tips))(moved[k]));
        assert forall|i: int| 0 <= i < cursors.len() implies step.exclude.contains(
            (#[trigger] cursors[i]).sha,
        ) by {
            assert(tips[i] == cursors[i].sha);
        }
    } else {
        let more = collector::known_to_new(heads, cursors);
        let h = created[k - moved.len()];
        assert((collector::is_created(cursors))(h));
        assert(step == (collector::step_for(true, more))(h));
        assert forall|i: int| 0 <= i < cursors.len() implies step.exclude.contains(
            (#[trigger] cursors[i]).sha,
        ) by {
            assert(more[i] == tips[i]);
        }
        order::lemma_filter_contains(heads, collector::is_existing(cursors));
        assert forall|i: int|
            0 <= i < heads.len() && collector::cursor_of(cursors, (#[trigger] heads[i]).0)
                is Some implies step.exclude.contains(heads[i].1) by {
            assert(heads.contains(heads[i]));
            assert(existing.contains(heads[i]));
            let m = choose|m: int| 0 <= m < existing.len() && existing[m] == heads[i];
            assert(existing.map_values(collector::sha_of())[m] == heads[i].1);
            assert(more[tips.len() + m] == heads[i].1);
        }
    }
}

/// What taking in the branches of a repository does.
proof fn lemma_branches(
    s: StoreModel,
    id: int,
    now: i64,
    heads: Seq<(Seq<char>, Seq<char>)>,
    logs: Seq<Result<Seq<CommitModel>, Seq<char>>>,
)
    requires
        s.wf(),
        s.knows(id),
        distinct_heads(heads),
        collector::branches_recorded(s, id, now, heads, logs).1 is Ok,
    ensures
        ({
            let t = collector::branches_recorded(s, id, now, heads, logs).0;
            t.wf() && same_projects(s.projects, t.projects) && up_to_date(t, id, heads)
        }),
{
    let cursors = s.refs_of(id);
    let steps = collector::steps_of(heads, cursors);
    let branches = heads.map_values(collector::branch_of());
    lemma_steps_of(heads, cursors);
    lemma_steps(s, id, now, steps, logs);
    let t = collector::steps_recorded(s, id, now, steps, logs).0;
    let gone = cursors.filter(collector::is_gone(heads));
    lemma_gone(t, id, now, gone);
    let u = collector::gone_recorded(t, id, now, gone).0;
    order::lemma_filter_contains(cursors, collector::is_gone(heads));
    order::lemma_filter_contains(s.refs, store::is_ref_of(id));
    assert forall|branch: Seq<char>| names(gone, branch) implies !branches.contains(branch) by {
        let i = choose|i: int| 0 <= i < gone.len() && (#[trigger] gone[i]).name == branch;
        assert(gone.contains(gone[i]));
    }
    assert forall|branch: Seq<char>| takes_in(steps, branch) implies branches.contains(branch) by {
        let k = choose|k: int| 0 <= k < steps.len() && (#[trigger] steps[k]).branch == branch;
        let i = choose|i: int|
            0 <= i < heads.len() && (#[trigger] heads[i]).0 == steps[k].branch && heads[i].1
                == steps[k].sha;
        assert(branches[i] == branch);
    }
    assert forall|i: int| 0 <= i < heads.len() implies u.refs.contains(
        tip(id, (#[trigger] heads[i]).0, heads[i].1),
    ) by {
        let row = tip(id, heads[i].0, heads[i].1);
        assert(branches[i] == heads[i].0);
        assert(branches.contains(row.name));
        lemma_cursor(s, id, heads[i].0);
        if collector::cursor_of(cursors, heads[i].0) == Some(heads[i].1) {
            assert(s.refs.contains(row));
            if takes_in(steps, row.name) {
                let k = choose|k: int|
                    0 <= k < steps.len() && (#[trigger] steps[k]).branch == row.name;
                let j = choose|j: int|
                    0 <= j < heads.len() && (#[trigger] heads[j]).0 == steps[k].branch
                        && heads[j].1 == steps[k].sha;
                if j < i {
                    assert(heads[j].0 != heads[i].0);
                } else if i < j {
                    assert(heads[i].0 != heads[j].0);
                }
                assert(t.refs.contains(tip(id, steps[k].branch, steps[k].sha)));
            } else {
                assert(t.refs.contains(row) <==> s.refs.contains(row));
            }
        } else {
            let k = choose|k: int|
                0 <= k < steps.len() && (#[trigger] steps[k]).branch == heads[i].0 && steps[k].sha
                    == heads[i].1;
            assert(t.refs.contains(tip(id, steps[k].branch, steps[k].sha)));
        }
        assert(t.refs.contains(row));
        assert(!names(gone, row.name));
        assert(u.refs.contains(row));
    }
    assert forall|r: RefModel| #[trigger]
        u.refs.contains(r) && r.project_id == id implies branches.contains(r.name) by {
        if !branches.contains(r.name) {
            assert(!takes_in(steps, r.name));
            assert(t.refs.contains(r) <==> s.refs.contains(r));
            assert(s.refs.contains(r));
            assert(cursors.contains(r));
            assert(gone.contains(r));
            let k = choose|k: int| 0 <= k < gone.len() && gone[k] == r;
            assert(gone[k].name == r.name);
            assert(names(gone, r.name));
        }
    }
}

/// After a scan that went through, the journal knows exactly the tips that the
/// repository has.
pub proof fn a_scan_takes_in_every_branch(
    s: StoreModel,
    id: int,
    path: Seq<char>,
    now: i64,
    answers: AnswersModel,
)
    requires
        s.wf(),
        s.knows(id),
        answers.heads is Ok,
        distinct_heads(answers.heads->Ok_0),
        collector::scanned(s, id, path, now, answers).1 is Ok,
    ensures
        collector::scanned(s, id, path, now, answers).0.wf(),
        same_projects(s.projects, collector::scanned(s, id, path, now, answers).0.projects),
        up_to_date(collector::scanned(s, id, path, now, answers).0, id, answers.heads->Ok_0),
{
    let heads = answers.heads->Ok_0;
    let t = if collector::first_meeting(s, id, path) {
        collector::tips_remembered(s, id, heads).0
    } else {
        collector::branches_recorded(s, id, now, heads, answers.logs).0
    };
    if collector::first_meeting(s, id, path) {
        lemma_tips(s, id, heads);
        order::lemma_filter_contains(s.refs, store::is_ref_of(id));
        assert forall|r: RefModel| #[trigger]
            t.refs.contains(r) && r.project_id == id implies heads.map_values(
            collector::branch_of(),
        ).contains(r.name) by {
            if !heads.map_values(collector::branch_of()).contains(r.name) {
                assert(s.refs.contains(r));
                assert(s.refs_of(id).contains(r));
            }
        }
    } else {
        lemma_branches(s, id, now, heads, answers.logs);
    }
    let change = collector::switched(s, path, answers.head_branch);
    let u = collector::checkout_recorded(t, id, now, change).0;
    if change is Some {
        let (from, to) = change->Some_0;
        lemma_event(t, id, "checkout"@, now, None, collector::checkout_payload(from, to));
    }
    let (count, sample) = answers.dirty->Ok_0;
    let snapshot = SnapshotModel {
        head_branch: answers.head_branch,
        dirty_files: time::signed(count),
        dirty_sample: sample,
    };
    store::save_snapshot_keeps_rules(u, id, snapshot, now);
    order::lemma_position(u.projects, store::with_id(id));
}

/// The first look at a project writes no events, whatever its history.
pub proof fn history_before_the_first_scan_is_no_change(
    s: StoreModel,
    id: int,
    path: Seq<char>,
    now: i64,
    answers: AnswersModel,
)
    requires
        collector::first_meeting(s, id, path),
    ensures
        collector::scanned(s, id, path, now, answers).0.events == s.events,
{
    if answers.heads is Ok {
        lemma_tips_keep_events(s, id, answers.heads->Ok_0);
    }
}

proof fn lemma_tips_keep_events(s: StoreModel, id: int, heads: Seq<(Seq<char>, Seq<char>)>)
    ensures
        collector::tips_remembered(s, id, heads).0.events == s.events,
    decreases heads.len(),
{
    if heads.len() > 0 {
        lemma_tips_keep_events(s, id, heads.drop_last());
    }
}

/// A scan of a repository whose branches the journal is up to date with, and
/// whose current branch is the same, only keeps what the working tree looks
/// like: it writes no events.
pub proof fn an_unchanged_repository_makes_no_events(
    s: StoreModel,
    id: int,
    path: Seq<char>,
    now: i64,
    answers: AnswersModel,
)
    requires
        s.wf(),
        answers.heads is Ok,
        up_to_date(s, id, answers.heads->Ok_0),
        collector::switched(s, path, answers.head_branch) is None,
    ensures
        collector::scanned(s, id, path, now, answers).0.events == s.events,
        !collector::first_meeting(s, id, path) ==> collector::planned(
            s,
            id,
            path,
            answers.heads->Ok_0,
        ).len() == 0 && collector::scanned(s, id, path, now, answers).0.refs == s.refs,
{
    if collector::first_meeting(s, id, path) {
        history_before_the_first_scan_is_no_change(s, id, path, now, answers);
    } else {
        let heads = answers.heads->Ok_0;
        let cursors = s.refs_of(id);
        let p = collector::is_moved(cursors);
        let q = collector::is_created(cursors);
        assert forall|i: int| 0 <= i < heads.len() implies !p(#[trigger] heads[i]) && !q(heads[i]) by {
            lemma_cursor(s, id, heads[i].0);
            assert(s.refs.contains(tip(id, heads[i].0, heads[i].1)));
        }
        order::lemma_filter_empty(heads, p);
        order::lemma_filter_empty(heads, q);
        let steps = collector::steps_of(heads, cursors);
        assert(steps =~= Seq::<StepModel>::empty());
        order::lemma_filter_contains(s.refs, store::is_ref_of(id));
        assert forall|i: int| 0 <= i < cursors.len() implies !(collector::is_gone(heads))(
            #[trigger] cursors[i],
        ) by {
            assert(cursors.contains(cursors[i]));
            assert(s.refs.contains(cursors[i]));
        }
        order::lemma_filter_empty(cursors, collector::is_gone(heads));
    }
}

/// A second scan of a repository in which nothing happened since the first
/// one went through writes no events.
pub proof fn a_second_scan_repeats_nothing(
    s: StoreModel,
    id: int,
    path: Seq<char>,
    now: i64,
    answers: AnswersModel,
    later: i64,
    again: AnswersModel,
)
    requires
        s.wf(),
        s.find_project(path) matches Some(p) && p.id == id,
        answers.heads is Ok,
        distinct_heads(answers.heads->Ok_0),
        collector::scanned(s, id, path, now, answers).1 is Ok,
        again.heads == answers.heads,
        again.head_branch == answers.head_branch,
    ensures
        ({
            let t = collector::scanned(s, id, path, now, answers).0;
            collector::scanned(t, id, path, later, again).0.events == t.events
        }),
{
    let t = collector::scanned(s, id, path, now, answers).0;
    order::lemma_position(s.projects, store::active_called(path));
    order::lemma_position(s.projects, store::called(path));
    let i = match order::position(s.projects, store::active_called(path)) {
        Some(i) => i,
        None => order::position(s.projects, store::called(path))->Some_0,
    };
    assert(s.projects[i].id == id);
    order::lemma_position(s.projects, store::with_id(id));
    assert(s.knows(id));
    a_scan_takes_in_every_branch(s, id, path, now, answers);
    lemma_same_found(s, t, path);
    let k = order::position(t.projects, store::with_id(id))->Some_0;
    order::lemma_position(t.projects, store::with_id(id));
    assert(t.projects[i].id == id);
    if k < i {
        assert((store::other_project())(t.projects[k], t.projects[i]));
    } else if i < k {
        assert((store::other_project())(t.projects[i], t.projects[k]));
    }
    assert(t.projects[i].head_branch == answers.head_branch) by {
        lemma_scan_shows(s, id, path, now, answers);
    }
    assert(t.find_project(path) == Some(t.projects[i]));
    an_unchanged_repository_makes_no_events(t, id, path, later, again);
}

/// A scan that went through leaves the project showing its current branch and
/// the files that are not committed.
proof fn lemma_scan_shows(
    s: StoreModel,
    id: int,
    path: Seq<char>,
    now: i64,
    answers: AnswersModel,
)
    requires
        s.wf(),
        s.knows(id),
        answers.heads is Ok,
        distinct_heads(answers.heads->Ok_0),
        collector::scanned(s, id, path, now, answers).1 is Ok,
    ensures
        ({
            let t = collector::scanned(s, id, path, now, answers).0;
            &&& order::position(t.projects, store::with_id(id)) matches Some(i)
            &&& t.projects[i].id == id
            &&& t.projects[i].head_branch == answers.head_branch
            &&& t.projects[i].last_scanned == Some(now)
            &&& answers.dirty matches Ok((count, sample)) && t.projects[i].dirty_sample == sample && (
            count <= i64::MAX ==> t.projects[i].dirty_files == count)
        }),
{
    let heads = answers.heads->Ok_0;
    let t = if collector::first_meeting(s, id, path) {
        collector::tips_remembered(s, id, heads).0
    } else {
        collector::branches_recorded(s, id, now, heads, answers.logs).0
    };
    if collector::first_meeting(s, id, path) {
        lemma_tips(s, id, heads);
    } else {
        lemma_branches(s, id, now, heads, answers.logs);
        lemma_same_found(s, t, path);
    }
    let change = collector::switched(s, path, answers.head_branch);
    let u = collector::checkout_recorded(t, id, now, change).0;
    if change is Some {
        let (from, to) = change->Some_0;
        lemma_event(t, id, "checkout"@, now, None, collector::checkout_payload(from, to));
        lemma_same_found(t, u, path);
    }
    let (count, sample) = answers.dirty->Ok_0;
    let snapshot = SnapshotModel {
        head_branch: answers.head_branch,
        dirty_files: time::signed(count),
        dirty_sample: sample,
    };
    store_laws::a_snapshot_is_read_back(u, id, snapshot, now);
    order::lemma_position(
        u.save_snapshot(id, snapshot, now).projects,
        store::with_id(id),
    );
}

/// After a scan that went through, the project shows what git says of it: its
/// current branch, how many files are not committed and the first of them, and
/// when it was scanned.
pub proof fn a_scan_shows_the_working_tree(
    s: StoreModel,
    id: int,
    path: Seq<char>,
    now: i64,
    answers: AnswersModel,
    i: int,
)
    requires
        s.wf(),
        s.knows(id),
        answers.heads is Ok,
        distinct_heads(answers.heads->Ok_0),
        collector::scanned(s, id, path, now, answers).1 is Ok,
        0 <= i < collector::scanned(s, id, path, now, answers).0.projects.len(),
        collector::scanned(s, id, path, now, answers).0.projects[i].id == id,
    ensures
        ({
            let p = collector::scanned(s, id, path, now, answers).0.projects[i];
            &&& p.head_branch == answers.head_branch
            &&& p.last_scanned == Some(now)
            &&& answers.dirty matches Ok((count, sample)) && p.dirty_sample == sample && (count
                <= i64::MAX ==> p.dirty_files == count)
        }),
{
    lemma_scan_shows(s, id, path, now, answers);
    a_scan_takes_in_every_branch(s, id, path, now, answers);
    let t = collector::scanned(s, id, path, now, answers).0;
    let k = order::position(t.projects, store::with_id(id))->Some_0;
    order::lemma_position(t.projects, store::with_id(id));
    if k < i {
        assert((store::other_project())(t.projects[k], t.projects[i]));
    } else if i < k {
        assert((store::other_project())(t.projects[i], t.projects[k]));
    }
}

/// Commits that the project already has events about are passed over: what a
/// merge brings into another branch is not counted again.
pub proof fn known_commits_are_passed_over(
    s: StoreModel,
    id: int,
    now: i64,
    branch: Seq<char>,
    commits: Seq<CommitModel>,
)
    requires
        s.knows(id),
        forall|i: int|
            0 <= i < commits.len() ==> order::position(
                s.events,
                store::is_about(id, (#[trigger] commits[i]).sha),
            ) is Some,
    ensures
        collector::commits_recorded(s, id, now, branch, commits) == (s, Ok::<(), Failure>(())),
    decreases commits.len(),
{
    if commits.len() > 0 {
        let rest = commits.drop_last();
        assert forall|i: int| 0 <= i < rest.len() implies order::position(
            s.events,
            store::is_about(id, (#[trigger] rest[i]).sha),
        ) is Some by {
            assert(rest[i] == commits[i]);
        }
        known_commits_are_passed_over(s, id, now, branch, rest);
        assert(commits[commits.len() - 1] == commits.last());
    }
}

/// A digest reads back from a commit's event what git said of the commit.
pub proof fn a_digest_reads_back_a_recorded_commit(
    c: CommitModel,
    branch: Seq<char>,
    e: EventModel,
)
    requires
        c.insertions <= u64::MAX,
        c.deletions <= u64::MAX,
        e.payload == json::kept(collector::commit_payload(c, branch)),
        json::is_kept(collector::commit_payload(c, branch)),
    ensures
        (digest::brief_of())(e) == (CommitBriefModel {
            sha: order::first(c.sha, 7),
            branch,
            author: c.author,
            subject: c.subject,
            insertions: c.insertions,
            deletions: c.deletions,
        }),
{
    lemma_keys();
    text::decimal_reads_back(c.insertions);
    text::decimal_reads_back(c.deletions);
}

/// The names of a commit's fields differ.
proof fn lemma_keys()
    ensures
        "sha"@ != "author"@,
        "sha"@ != "email"@,
        "sha"@ != "committed_at"@,
        "sha"@ != "subject"@,
        "sha"@ != "files_changed"@,
        "sha"@ != "insertions"@,
        "sha"@ != "deletions"@,
        "sha"@ != "files"@,
        "sha"@ != "branch"@,
        "author"@ != "email"@,
        "author"@ != "committed_at"@,
        "author"@ != "subject"@,
        "author"@ != "files_changed"@,
        "author"@ != "insertions"@,
        "author"@ != "deletions"@,
        "author"@ != "files"@,
        "author"@ != "branch"@,
        "subject"@ != "files_changed"@,
        "subject"@ != "insertions"@,
        "subject"@ != "deletions"@,
        "subject"@ != "files"@,
        "subject"@ != "branch"@,
        "insertions"@ != "deletions"@,
        "insertions"@ != "files"@,
        "insertions"@ != "branch"@,
        "deletions"@ != "files"@,
        "deletions"@ != "branch"@,
{
    reveal_strlit("sha");
    reveal_strlit("author");
    reveal_strlit("email");
    reveal_strlit("committed_at");
    reveal_strlit("subject");
    reveal_strlit("files_changed");
    reveal_strlit("insertions");
    reveal_strlit("deletions");
    reveal_strlit("files");
    reveal_strlit("branch");
    assert("sha"@.len() == 3 && "author"@.len() == 6 && "email"@.len() == 5);
    assert("committed_at"@.len() == 12 && "subject"@.len() == 7 && "files_changed"@.len() == 13);
    assert("insertions"@.len() == 10 && "deletions"@.len() == 9 && "files"@.len() == 5);
    assert("branch"@.len() == 6);
    assert("author"@[0] == 'a' && "branch"@[0] == 'b');
}

/// Whether one of the projects that were found has the path.
pub open spec fn has_path(found: Seq<FoundModel>, path: Seq<char>) -> bool {
    exists|i: int| 0 <= i < found.len() && (#[trigger] found[i]).path == path
}

/// Whether a project of that path and identifier is there.
pub open spec fn is_there(projects: Seq<ProjectModel>, path: Seq<char>, id: int) -> bool {
    exists|k: int|
        0 <= k < projects.len() && (#[trigger] projects[k]).path == path && projects[k].id == id
            && projects[k].removed_at is None
}

/// Whether the projects of `s` are still in `t`, and were touched only where
/// their paths were found; all others of `t` were found and are there.
pub open spec fn grown(s: Seq<ProjectModel>, t: Seq<ProjectModel>, found: Seq<FoundModel>) -> bool {
    &&& s.len() <= t.len()
    &&& forall|k: int|
        0 <= k < s.len() ==> (#[trigger] t[k]).id == s[k].id && t[k].path == s[k].path
    &&& forall|k: int|
        0 <= k < t.len() ==> if has_path(found, (#[trigger] t[k]).path) {
            t[k].removed_at is None
        } else {
            k < s.len() && t[k].removed_at == s[k].removed_at
        }
}

/// What registering projects does.
pub proof fn lemma_registered(s: StoreModel, found: Seq<FoundModel>, now: i64, first_run: bool)
    requires
        s.wf(),
        collector::registered(s, found, now, first_run).1 is Ok,
    ensures
        ({
            let (t, r) = collector::registered(s, found, now, first_run);
            let index = r->Ok_0;
            &&& t.wf()
            &&& grown(s.projects, t.projects, found)
            &&& index.len() == found.len()
            &&& forall|j: int|
                0 <= j < found.len() ==> (#[trigger] index[j]).0 == found[j].path && is_there(
                    t.projects,
                    index[j].0,
                    index[j].1,
                )
            &&& first_run ==> t.events == s.events
        }),
    decreases found.len(),
{
    if found.len() > 0 {
        let rest = found.drop_last();
        let f = found.last();
        lemma_registered(s, rest, now, first_run);
        let (t, r) = collector::registered(s, rest, now, first_run);
        let before = r->Ok_0;
        let (u, upserted) = t.upsert_project(f.path, f.name, now);
        let (id, created) = upserted->Ok_0;
        store::upsert_keeps_rules(t, f.path, f.name, now);
        order::lemma_position(t.projects, store::with_path(f.path));
        let payload = collector::path_payload(f.path);
        let v = if created && !first_run {
            u.insert_event(id, "project_added"@, now, None, payload).0
        } else {
            u
        };
        if created && !first_run {
            lemma_event(u, id, "project_added"@, now, None, payload);
        }
        let k = match order::position(t.projects, store::with_path(f.path)) {
            Some(i) => i,
            None => t.projects.len() as int,
        };
        assert(same_projects(u.projects, v.projects));
        assert(u.projects[k].path == f.path && u.projects[k].id == id && u.projects[k].removed_at
            is None);
        assert(v.projects[k].path == f.path && v.projects[k].id == id && v.projects[k].removed_at
            is None);
        assert forall|j: int| 0 <= j < v.projects.len() && j != k implies {
            &&& j < t.projects.len()
            &&& (#[trigger] v.projects[j]).id == t.projects[j].id
            &&& v.projects[j].path == t.projects[j].path
            &&& v.projects[j].removed_at == t.projects[j].removed_at
        } by {
            assert(u.projects[j] == t.projects[j]);
        }
        assert forall|path: Seq<char>| has_path(found, path) == (has_path(rest, path) || path
            == f.path) by {
            if has_path(found, path) {
                let i = choose|i: int| 0 <= i < found.len() && (#[trigger] found[i]).path == path;
                if i < rest.len() {
                    assert(rest[i].path == path);
                }
            }
            if has_path(rest, path) {
                let i = choose|i: int| 0 <= i < rest.len() && (#[trigger] rest[i]).path == path;
                assert(found[i].path == path);
            }
            if path == f.path {
                assert(found[found.len() - 1].path == path);
            }
        }
        assert forall|j: int| 0 <= j < s.projects.len() implies (#[trigger] v.projects[j]).id
            == s.projects[j].id && v.projects[j].path == s.projects[j].path by {
            assert(t.projects[j].id == s.projects[j].id);
        }
        assert forall|j: int| 0 <= j < v.projects.len() implies if has_path(
            found,
            (#[trigger] v.projects[j]).path,
        ) {
            v.projects[j].removed_at is None
        } else {
            j < s.projects.len() && v.projects[j].removed_at == s.projects[j].removed_at
        } by {
            if j != k {
                assert(v.projects[j].path == t.projects[j].path);
                if v.projects[j].path == f.path {
                    assert((store::with_path(f.path))(t.projects[j]));
                    if j < k {
                        assert(!(store::with_path(f.path))(t.projects[j]));
                    } else {
                        assert((store::other_project())(t.projects[k], t.projects[j]));
                    }
                }
                assert(t.projects[j].path == v.projects[j].path);
            }
        }
        let index = before.push((f.path, id));
        assert forall|j: int| 0 <= j < found.len() implies (#[trigger] index[j]).0 == found[j].path
            && is_there(v.projects, index[j].0, index[j].1) by {
            if j < rest.len() {
                assert(before[j].0 == rest[j].path);
                let m = choose|m: int|
                    0 <= m < t.projects.len() && (#[trigger] t.projects[m]).path == before[j].0
                        && t.projects[m].id == before[j].1 && t.projects[m].removed_at is None;
                assert(v.projects[m].path == before[j].0 && v.projects[m].id == before[j].1);
                assert(v.projects[m].removed_at is None);
            } else {
                assert(v.projects[k].path == index[j].0);
            }
        }
        assert(collector::registered(s, found, now, first_run) == (
            v,
            Ok::<Seq<(Seq<char>, int)>, StoreError>(index),
        ));
    } else {
        assert forall|k: int| 0 <= k < s.projects.len() implies !has_path(
            found,
            (#[trigger] s.projects[k]).path,
        ) by {}
    }
}

/// Whether one of the projects has the identifier.
pub open spec fn has_id(projects: Seq<ProjectModel>, id: int) -> bool {
    exists|i: int| 0 <= i < projects.len() && (#[trigger] projects[i]).id == id
}

/// What marking projects as gone does.
proof fn lemma_departed(s: StoreModel, absent: Seq<ProjectModel>, now: i64)
    requires
        s.wf(),
        collector::departed(s, absent, now).1 is Ok,
    ensures
        ({
            let t = collector::departed(s, absent, now).0;
            &&& t.wf()
            &&& t.projects.len() == s.projects.len()
            &&& forall|k: int|
                0 <= k < s.projects.len() ==> {
                    &&& (#[trigger] t.projects[k]).id == s.projects[k].id
                    &&& t.projects[k].path == s.projects[k].path
                    &&& if has_id(absent, s.projects[k].id) {
                        t.projects[k].removed_at is Some
                    } else {
                        t.projects[k].removed_at == s.projects[k].removed_at
                    }
                }
        }),
    decreases absent.len(),
{
    if absent.len() > 0 {
        let rest = absent.drop_last();
        let p = absent.last();
        lemma_departed(s, rest, now);
        let t = collector::departed(s, rest, now).0;
        store::mark_removed_keeps_rules(t, p.id, now);
        let u = t.mark_removed(p.id, now);
        let payload = collector::path_payload(p.path);
        lemma_event(u, p.id, "project_removed"@, now, None, payload);
        let v = u.insert_event(p.id, "project_removed"@, now, None, payload).0;
        assert(collector::departed(s, absent, now).0 == v);
        order::lemma_position(t.projects, store::with_id(p.id));
        assert forall|k: int| 0 <= k < s.projects.len() implies {
            &&& (#[trigger] v.projects[k]).id == s.projects[k].id
            &&& v.projects[k].path == s.projects[k].path
            &&& if has_id(absent, s.projects[k].id) {
                v.projects[k].removed_at is Some
            } else {
                v.projects[k].removed_at == s.projects[k].removed_at
            }
        } by {
            assert(t.projects[k].id == s.projects[k].id);
            assert(v.projects[k].id == u.projects[k].id);
            assert(u.projects[k].removed_at == v.projects[k].removed_at);
            if has_id(rest, s.projects[k].id) {
                let i = choose|i: int|
                    0 <= i < rest.len() && (#[trigger] rest[i]).id == s.projects[k].id;
                assert(absent[i].id == s.projects[k].id);
            }
            if p.id == s.projects[k].id {
                assert(absent[absent.len() - 1].id == s.projects[k].id);
                assert((store::with_id(p.id))(t.projects[k]));
                let m = order::position(t.projects, store::with_id(p.id))->Some_0;
                if m < k {
                    assert((store::other_project())(t.projects[m], t.projects[k]));
                } else if k < m {
                    assert((store::other_project())(t.projects[k], t.projects[m]));
                }
            } else if has_id(absent, s.projects[k].id) {
                let i = choose|i: int|
                    0 <= i < absent.len() && (#[trigger] absent[i]).id == s.projects[k].id;
                assert(rest[i].id == s.projects[k].id);
            }
        }
    } else {
        assert forall|k: int| 0 <= k < s.projects.len() implies !has_id(
            absent,
            (#[trigger] s.projects[k]).id,
        ) by {}
    }
}

/// After the journal was brought in line with what was found, the projects
/// that are there are exactly those that were found, and the index gives the
/// identifier of each.
pub proof fn the_projects_there_are_those_found(s: StoreModel, found: Seq<FoundModel>, now: i64)
    requires
        s.wf(),
        collector::reconciled(s, found, now).1 is Ok,
    ensures
        ({
            let (u, r) = collector::reconciled(s, found, now);
            let index = r->Ok_0;
            &&& u.wf()
            &&& index.len() == found.len()
            &&& forall|j: int|
                0 <= j < found.len() ==> (#[trigger] index[j]).0 == found[j].path && is_there(
                    u.projects,
                    index[j].0,
                    index[j].1,
                )
            &&& forall|k: int|
                0 <= k < u.projects.len() && (#[trigger] u.projects[k]).removed_at is None
                    ==> collector::is_present(found, u.projects[k].path)
        }),
{
    let known = s.by_name();
    let absent = known.filter(collector::is_absent(found));
    let (t, r) = collector::registered(s, found, now, known.len() == 0);
    let index = r->Ok_0;
    lemma_registered(s, found, now, known.len() == 0);
    lemma_departed(t, absent, now);
    let u = collector::departed(t, absent, now).0;
    order::lemma_filter_contains(known, collector::is_absent(found));
    order::sorted_is_permutation(s.projects, store::by_name());
    assert forall|j: int| 0 <= j < found.len() implies (#[trigger] index[j]).0 == found[j].path
        && is_there(u.projects, index[j].0, index[j].1) by {
        let k = choose|k: int|
            0 <= k < t.projects.len() && (#[trigger] t.projects[k]).path == index[j].0
                && t.projects[k].id == index[j].1 && t.projects[k].removed_at is None;
        if has_id(absent, t.projects[k].id) {
            let i = choose|i: int|
                0 <= i < absent.len() && (#[trigger] absent[i]).id == t.projects[k].id;
            let p = absent[i];
            assert(absent.contains(p));
            assert(known.contains(p));
            assert(s.projects.contains(p));
            let m = choose|m: int| 0 <= m < s.projects.len() && s.projects[m] == p;
            assert(t.projects[m].id == p.id && t.projects[m].path == p.path);
            if m < k {
                assert((store::other_project())(t.projects[m], t.projects[k]));
            } else if k < m {
                assert((store::other_project())(t.projects[k], t.projects[m]));
            }
            assert(discovery::same_path(found[j].path, p.path));
            assert(collector::is_present(found, p.path));
        }
        assert(u.projects[k].path == index[j].0);
    }
    assert forall|k: int|
        0 <= k < u.projects.len() && (#[trigger] u.projects[k]).removed_at is None implies collector::is_present(
        found,
        u.projects[k].path,
    ) by {
        let path = u.projects[k].path;
        assert(t.projects[k].path == path);
        if has_path(found, path) {
            let i = choose|i: int| 0 <= i < found.len() && (#[trigger] found[i]).path == path;
            assert(discovery::same_path(found[i].path, path));
        } else {
            assert(t.projects[k].removed_at == s.projects[k].removed_at);
            let p = s.projects[k];
            assert(t.projects[k].id == p.id && t.projects[k].path == p.path);
            if !collector::is_present(found, path) {
                assert(s.projects.contains(p));
                assert(known.contains(p));
                assert(absent.contains(p));
                let i = choose|i: int| 0 <= i < absent.len() && absent[i] == p;
                assert(absent[i].id == t.projects[k].id);
                assert(has_id(absent, t.projects[k].id));
            }
        }
    }
}

/// At the first run all projects are new, and none is an event.
pub proof fn the_first_run_makes_no_events(s: StoreModel, found: Seq<FoundModel>, now: i64)
    requires
        s.wf(),
        s.projects.len() == 0,
        collector::reconciled(s, found, now).1 is Ok,
    ensures
        collector::reconciled(s, found, now).0.events == s.events,
{
    order::sorted_is_permutation(s.projects, store::by_name());
    let known = s.by_name();
    order::lemma_filter_empty(known, collector::is_absent(found));
    lemma_registered(s, found, now, true);
}

} // verus!
