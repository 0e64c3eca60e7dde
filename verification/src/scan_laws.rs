//! What a scan writes to the journal of what `git` says.

use crate::collector;
use crate::collector::{AnswersModel, StepModel};
use crate::collector_laws;
use crate::digest;
use crate::digest::DigestModel;
use crate::git::CommitModel;
use crate::json;
use crate::json::Json;
use crate::order;
use crate::period_laws;
use crate::store;
use crate::store::{RefModel, StoreError, StoreModel, StoredModel};
use crate::text;
use vstd::prelude::*;

verus! {

// --- events --------------------------------------------------------------

/// Whether the field of a payload is a text.
pub open spec fn has_text(j: Json, key: Seq<char>, value: Seq<char>) -> bool {
    json::json_field(j, key) == Some(Json::Text(value))
}

/// Whether an event is one of a project, seen at a moment, without a commit.
pub open spec fn is_plain_event(e: StoredModel, id: int, kind: Seq<char>, now: i64) -> bool {
    e.project_id == id && e.kind == kind && e.seen_at == now && e.sha is None
}

/// Whether an event tells of a branch.
pub open spec fn tells_branch(
    e: StoredModel,
    id: int,
    kind: Seq<char>,
    now: i64,
    branch: Seq<char>,
    sha: Seq<char>,
) -> bool {
    &&& is_plain_event(e, id, kind, now)
    &&& has_text(e.payload, "branch"@, branch)
    &&& has_text(e.payload, "sha"@, sha)
}

/// Whether an event tells of a checkout.
pub open spec fn tells_checkout(
    e: StoredModel,
    id: int,
    now: i64,
    from: Seq<char>,
    to: Seq<char>,
) -> bool {
    &&& is_plain_event(e, id, "checkout"@, now)
    &&& has_text(e.payload, "from"@, from)
    &&& has_text(e.payload, "to"@, to)
}

/// Whether an event tells of a commit, on a branch.
pub open spec fn tells_commit(
    e: StoredModel,
    id: int,
    now: i64,
    c: CommitModel,
    branch: Seq<char>,
) -> bool {
    &&& e.project_id == id && e.kind == "commit"@ && e.seen_at == now && e.sha == Some(c.sha)
    &&& has_text(e.payload, "sha"@, c.sha)
    &&& has_text(e.payload, "author"@, c.author)
    &&& has_text(e.payload, "email"@, c.email)
    &&& has_text(e.payload, "subject"@, c.subject)
    &&& has_text(e.payload, "branch"@, branch)
    &&& json::json_field(e.payload, "committed_at"@) == Some(
        Json::Number(text::decimal_signed(c.committed_at)),
    )
    &&& period_laws::holds_count(e.payload, "files_changed"@, c.files_changed)
    &&& period_laws::holds_count(e.payload, "insertions"@, c.insertions)
    &&& period_laws::holds_count(e.payload, "deletions"@, c.deletions)
    &&& period_laws::holds_texts(e.payload, "files"@, c.files)
}

/// Whether one of the events of a project is about the commit.
pub open spec fn knows_commit(events: Seq<StoredModel>, id: int, sha: Seq<char>) -> bool {
    exists|k: int|
        0 <= k < events.len() && (#[trigger] events[k]).project_id == id && events[k].sha == Some(
            sha,
        )
}

/// Whether `t` has the events of `s` first.
pub open spec fn grows(s: StoreModel, t: StoreModel) -> bool {
    &&& s.events.len() <= t.events.len()
    &&& forall|k: int| 0 <= k < s.events.len() ==> #[trigger] t.events[k] == s.events[k]
}

/// The events that `t` has beyond those of `s`.
pub open spec fn fresh(s: StoreModel, t: StoreModel) -> Seq<StoredModel> {
    t.events.skip(s.events.len() as int)
}

/// Events of a kind.
pub open spec fn is_kind(kind: Seq<char>) -> spec_fn(StoredModel) -> bool {
    |e: StoredModel| e.kind == kind
}

pub proof fn lemma_fresh(s: StoreModel, t: StoreModel, u: StoreModel)
    requires
        grows(s, t),
        grows(t, u),
    ensures
        grows(s, u),
        fresh(s, u) == fresh(s, t) + fresh(t, u),
{
    assert forall|k: int| 0 <= k < s.events.len() implies #[trigger] u.events[k] == s.events[k] by {
        assert(t.events[k] == s.events[k]);
    }
    assert(fresh(s, u) =~= fresh(s, t) + fresh(t, u)) by {
        assert forall|k: int| 0 <= k < fresh(s, u).len() implies fresh(s, u)[k] == (fresh(s, t)
            + fresh(t, u))[k] by {
            let n = s.events.len() as int;
            if k < fresh(s, t).len() {
                assert(u.events[n + k] == t.events[n + k]);
            }
        }
    }
}

proof fn lemma_still_known(s: StoreModel, t: StoreModel, id: int, sha: Seq<char>)
    requires
        grows(s, t),
        knows_commit(s.events, id, sha),
    ensures
        knows_commit(t.events, id, sha),
{
    let k = choose|k: int|
        0 <= k < s.events.len() && (#[trigger] s.events[k]).project_id == id && s.events[k].sha
            == Some(sha);
    assert(t.events[k] == s.events[k]);
}

/// What writing an event does to events.
pub proof fn lemma_inserted(
    s: StoreModel,
    id: int,
    kind: Seq<char>,
    now: i64,
    sha: Option<Seq<char>>,
    payload: Json,
)
    requires
        s.insert_event(id, kind, now, sha, payload).1 is Ok,
    ensures
        ({
            let (t, r) = s.insert_event(id, kind, now, sha, payload);
            &&& grows(s, t)
            &&& r == Ok::<bool, StoreError>(true) ==> fresh(s, t).len() == 1 && ({
                let e = fresh(s, t)[0];
                e.project_id == id && e.kind == kind && e.seen_at == now && e.sha == sha
                    && e.payload == json::kept(payload)
            })
            &&& r == Ok::<bool, StoreError>(false) ==> t.events == s.events && (sha matches Some(
                x,
            ) && knows_commit(s.events, id, x))
            &&& sha is None ==> r == Ok::<bool, StoreError>(true)
        }),
{
    let (t, r) = s.insert_event(id, kind, now, sha, payload);
    if let Some(x) = sha {
        order::lemma_position(s.events, store::is_about(id, x));
        if let Some(k) = order::position(s.events, store::is_about(id, x)) {
            assert(s.events[k].project_id == id);
        }
    }
    if r == Ok::<bool, StoreError>(true) {
        assert(fresh(s, t)[0] == t.events.last());
    }
}

proof fn lemma_branch_fields(branch: Seq<char>, sha: Seq<char>)
    ensures
        has_text(collector::branch_payload(branch, sha), "branch"@, branch),
        has_text(collector::branch_payload(branch, sha), "sha"@, sha),
{
    reveal_strlit("branch");
    reveal_strlit("sha");
    assert("branch"@.len() == 6 && "sha"@.len() == 3);
}

proof fn lemma_checkout_fields(from: Seq<char>, to: Seq<char>)
    ensures
        has_text(collector::checkout_payload(from, to), "from"@, from),
        has_text(collector::checkout_payload(from, to), "to"@, to),
{
    reveal_strlit("from");
    reveal_strlit("to");
    assert("from"@.len() == 4 && "to"@.len() == 2);
}

proof fn lemma_commit_fields(e: StoredModel, id: int, now: i64, c: CommitModel, branch: Seq<char>)
    requires
        e.project_id == id && e.kind == "commit"@ && e.seen_at == now && e.sha == Some(c.sha),
        e.payload == collector::commit_payload(c, branch),
    ensures
        tells_commit(e, id, now, c, branch),
{
    reveal_strlit("sha");
    reveal_strlit("author");
    reveal_strlit("email");
    reveal_strlit("committed_at");
    reveal_strlit("subject");
    reveal_strlit("files_changed");
    reveal_strlit("insertions");
    reveal_strlit("deletions");
    reveal_strlit("files");
    reveal_strlit("branch");
    assert("sha"@.len() == 3 && "author"@.len() == 6 && "email"@.len() == 5);
    assert("committed_at"@.len() == 12 && "subject"@.len() == 7 && "files_changed"@.len() == 13);
    assert("insertions"@.len() == 10 && "deletions"@.len() == 9 && "files"@.len() == 5);
    assert("branch"@.len() == 6);
    assert("author"@[0] == 'a' && "branch"@[0] == 'b');
    assert("email"@[0] == 'e' && "files"@[0] == 'f');
    let items = period_laws::list_at(e.payload, "files"@);
    assert(items == c.files.map_values(|t: Seq<char>| Json::Text(t)));
}

proof fn lemma_kinds()
    ensures
        "commit"@ != "branch_created"@,
        "commit"@ != "branch_deleted"@,
        "commit"@ != "checkout"@,
        "branch_created"@ != "branch_deleted"@,
        "branch_created"@ != "checkout"@,
        "branch_deleted"@ != "checkout"@,
{
    reveal_strlit("commit");
    reveal_strlit("checkout");
    reveal_strlit("branch_created");
    reveal_strlit("branch_deleted");
    assert("commit"@.len() == 6 && "checkout"@.len() == 8);
    assert("branch_created"@.len() == 14 && "branch_deleted"@.len() == 14);
    assert("branch_created"@[7] == 'c' && "branch_deleted"@[7] == 'd');
}

// --- commits -------------------------------------------------------------

/// Whether an event tells of one of the commits.
pub open spec fn tells_one_of(
    e: StoredModel,
    id: int,
    now: i64,
    commits: Seq<CommitModel>,
    branch: Seq<char>,
) -> bool {
    exists|i: int|
        0 <= i < commits.len() && tells_commit(e, id, now, #[trigger] commits[i], branch)
}

proof fn lemma_commits(
    s: StoreModel,
    id: int,
    now: i64,
    branch: Seq<char>,
    commits: Seq<CommitModel>,
)
    requires
        collector::commits_are_kept(commits, branch),
        collector::commits_recorded(s, id, now, branch, commits).1 is Ok,
    ensures
        ({
            let t = collector::commits_recorded(s, id, now, branch, commits).0;
            &&& grows(s, t)
            &&& forall|k: int|
                0 <= k < fresh(s, t).len() ==> tells_one_of(
                    #[trigger] fresh(s, t)[k],
                    id,
                    now,
                    commits,
                    branch,
                )
            &&& forall|i: int|
                0 <= i < commits.len() ==> knows_commit(t.events, id, (#[trigger] commits[i]).sha)
        }),
    decreases commits.len(),
{
    let u = collector::commits_recorded(s, id, now, branch, commits).0;
    if commits.len() > 0 {
        let rest = commits.drop_last();
        let c = commits.last();
        assert forall|i: int| 0 <= i < rest.len() implies json::is_kept(
            collector::commit_payload(#[trigger] rest[i], branch),
        ) by {
            assert(rest[i] == commits[i]);
        }
        lemma_commits(s, id, now, branch, rest);
        let t = collector::commits_recorded(s, id, now, branch, rest).0;
        let payload = collector::commit_payload(c, branch);
        assert(json::is_kept(collector::commit_payload(commits[commits.len() - 1], branch)));
        lemma_inserted(t, id, "commit"@, now, Some(c.sha), payload);
        lemma_fresh(s, t, u);
        assert forall|k: int| 0 <= k < fresh(s, u).len() implies tells_one_of(
            #[trigger] fresh(s, u)[k],
            id,
            now,
            commits,
            branch,
        ) by {
            let e = fresh(s, u)[k];
            if k < fresh(s, t).len() {
                assert(e == fresh(s, t)[k]);
                let i = choose|i: int|
                    0 <= i < rest.len() && tells_commit(e, id, now, #[trigger] rest[i], branch);
                assert(commits[i] == rest[i]);
            } else {
                assert(e == fresh(t, u)[0]);
                lemma_commit_fields(e, id, now, c, branch);
                assert(commits[commits.len() - 1] == c);
            }
        }
        assert forall|i: int| 0 <= i < commits.len() implies knows_commit(
            u.events,
            id,
            (#[trigger] commits[i]).sha,
        ) by {
            if i < rest.len() {
                assert(rest[i] == commits[i]);
                lemma_still_known(t, u, id, commits[i].sha);
            } else if fresh(t, u).len() == 1 {
                assert(u.events[t.events.len() as int] == fresh(t, u)[0]);
            } else {
                lemma_still_known(t, u, id, c.sha);
            }
        }
    }
}

proof fn lemma_in_turn(
    s: StoreModel,
    id: int,
    now: i64,
    branch: Seq<char>,
    commits: Seq<CommitModel>,
)
    requires
        collector::commits_are_kept(commits, branch),
        collector::commits_recorded(s, id, now, branch, commits).1 is Ok,
        forall|i: int|
            0 <= i < commits.len() ==> !knows_commit(s.events, id, (#[trigger] commits[i]).sha),
        forall|i: int, j: int|
            0 <= i < j < commits.len() ==> (#[trigger] commits[i]).sha != (#[trigger] commits[j]).sha,
    ensures
        ({
            let t = collector::commits_recorded(s, id, now, branch, commits).0;
            &&& grows(s, t)
            &&& fresh(s, t).len() == commits.len()
            &&& forall|i: int|
                0 <= i < commits.len() ==> tells_commit(
                    #[trigger] fresh(s, t)[i],
                    id,
                    now,
                    commits[i],
                    branch,
                )
        }),
    decreases commits.len(),
{
    let u = collector::commits_recorded(s, id, now, branch, commits).0;
    if commits.len() > 0 {
        let rest = commits.drop_last();
        let c = commits.last();
        assert forall|i: int| 0 <= i < rest.len() implies json::is_kept(
            collector::commit_payload(#[trigger] rest[i], branch),
        ) && !knows_commit(s.events, id, rest[i].sha) by {
            assert(rest[i] == commits[i]);
        }
        assert forall|i: int, j: int| 0 <= i < j < rest.len() implies (#[trigger] rest[i]).sha != (
        #[trigger] rest[j]).sha by {
            assert(rest[i] == commits[i] && rest[j] == commits[j]);
        }
        lemma_in_turn(s, id, now, branch, rest);
        let t = collector::commits_recorded(s, id, now, branch, rest).0;
        assert(commits[commits.len() - 1] == c);
        assert(json::is_kept(collector::commit_payload(commits[commits.len() - 1], branch)));
        lemma_inserted(
            t,
            id,
            "commit"@,
            now,
            Some(c.sha),
            collector::commit_payload(c, branch),
        );
        if knows_commit(t.events, id, c.sha) {
            let k = choose|k: int|
                0 <= k < t.events.len() && (#[trigger] t.events[k]).project_id == id
                    && t.events[k].sha == Some(c.sha);
            let n = s.events.len() as int;
            if k < n {
                assert(s.events[k] == t.events[k]);
                assert(knows_commit(s.events, id, c.sha));
            } else {
                assert(fresh(s, t)[k - n] == t.events[k]);
                assert(rest[k - n] == commits[k - n]);
            }
        }
        lemma_fresh(s, t, u);
        assert forall|i: int| 0 <= i < commits.len() implies tells_commit(
            #[trigger] fresh(s, u)[i],
            id,
            now,
            commits[i],
            branch,
        ) by {
            if i < rest.len() {
                assert(fresh(s, u)[i] == fresh(s, t)[i]);
                assert(rest[i] == commits[i]);
            } else {
                assert(fresh(s, u)[i] == fresh(t, u)[0]);
                lemma_commit_fields(fresh(t, u)[0], id, now, c, branch);
            }
        }
    }
}

// --- branches ------------------------------------------------------------

/// Whether an event comes from taking in a branch: it tells that the branch is
/// new, or of one of its commits.
pub open spec fn comes_of_step(
    e: StoredModel,
    id: int,
    now: i64,
    step: StepModel,
    log: Result<Seq<CommitModel>, Seq<char>>,
) -> bool {
    ||| step.created && tells_branch(e, id, "branch_created"@, now, step.branch, step.sha)
    ||| log matches Ok(commits) && tells_one_of(e, id, now, commits, step.branch)
}

/// Steps that take in a new branch.
pub open spec fn takes_in_new() -> spec_fn(StepModel) -> bool {
    |step: StepModel| step.created
}

pub proof fn lemma_no_kind(events: Seq<StoredModel>, kind: Seq<char>)
    requires
        forall|k: int| 0 <= k < events.len() ==> (#[trigger] events[k]).kind != kind,
    ensures
        events.filter(is_kind(kind)).len() == 0,
{
    order::lemma_filter_empty(events, is_kind(kind));
}

proof fn lemma_filter_one<A>(x: A, p: spec_fn(A) -> bool)
    ensures
        seq![x].filter(p).len() == (if p(x) {
            1int
        } else {
            0
        }),
{
    reveal(Seq::filter);
    assert(seq![x].drop_last() =~= Seq::<A>::empty());
    assert(Seq::<A>::empty().filter(p) =~= Seq::<A>::empty());
}

proof fn lemma_step(
    s: StoreModel,
    id: int,
    now: i64,
    step: StepModel,
    log: Result<Seq<CommitModel>, Seq<char>>,
)
    requires
        collector::step_is_kept(step, log),
        collector::step_recorded(s, id, now, step, log).1 is Ok,
    ensures
        ({
            let t = collector::step_recorded(s, id, now, step, log).0;
            let new = fresh(s, t);
            &&& grows(s, t)
            &&& forall|k: int|
                0 <= k < new.len() ==> comes_of_step(#[trigger] new[k], id, now, step, log)
            &&& step.created ==> new.len() > 0 && tells_branch(
                new[0],
                id,
                "branch_created"@,
                now,
                step.branch,
                step.sha,
            )
            &&& log matches Ok(commits) && forall|i: int|
                0 <= i < commits.len() ==> knows_commit(t.events, id, (#[trigger] commits[i]).sha)
            &&& new.filter(is_kind("branch_created"@)).len() == (if step.created {
                1int
            } else {
                0
            })
            &&& new.filter(is_kind("branch_deleted"@)).len() == 0
            &&& new.filter(is_kind("checkout"@)).len() == 0
        }),
{
    lemma_kinds();
    let payload = collector::branch_payload(step.branch, step.sha);
    let t = if step.created {
        s.insert_event(id, "branch_created"@, now, None, payload).0
    } else {
        s
    };
    if step.created {
        lemma_inserted(s, id, "branch_created"@, now, None, payload);
        lemma_branch_fields(step.branch, step.sha);
    }
    assert(grows(s, t));
    let commits = log->Ok_0;
    let turned = commits.reverse();
    assert forall|i: int| 0 <= i < turned.len() implies json::is_kept(
        collector::commit_payload(#[trigger] turned[i], step.branch),
    ) by {
        assert(turned[i] == commits[commits.len() - 1 - i]);
    }
    lemma_commits(t, id, now, step.branch, turned);
    let u = collector::commits_recorded(t, id, now, step.branch, turned).0;
    let v = collector::step_recorded(s, id, now, step, log).0;
    assert(v.events == u.events);
    lemma_fresh(s, t, u);
    assert(fresh(s, v) == fresh(s, u));
    let first = fresh(s, t);
    let more = fresh(t, u);
    assert forall|k: int| 0 <= k < more.len() implies tells_one_of(
        #[trigger] more[k],
        id,
        now,
        commits,
        step.branch,
    ) && more[k].kind == "commit"@ by {
        let i = choose|i: int|
            0 <= i < turned.len() && tells_commit(more[k], id, now, #[trigger] turned[i], step.branch);
        assert(turned[i] == commits[commits.len() - 1 - i]);
        assert(tells_commit(more[k], id, now, commits[commits.len() - 1 - i], step.branch));
    }
    assert forall|k: int| 0 <= k < fresh(s, v).len() implies comes_of_step(
        #[trigger] fresh(s, v)[k],
        id,
        now,
        step,
        log,
    ) by {
        if k < first.len() {
            assert(fresh(s, v)[k] == first[0]);
        } else {
            assert(fresh(s, v)[k] == more[k - first.len()]);
        }
    }
    assert forall|i: int| 0 <= i < commits.len() implies knows_commit(
        v.events,
        id,
        (#[trigger] commits[i]).sha,
    ) by {
        assert(turned[commits.len() - 1 - i] == commits[i]);
    }
    Seq::filter_distributes_over_add(first, more, is_kind("branch_created"@));
    Seq::filter_distributes_over_add(first, more, is_kind("branch_deleted"@));
    Seq::filter_distributes_over_add(first, more, is_kind("checkout"@));
    lemma_no_kind(more, "branch_created"@);
    lemma_no_kind(more, "branch_deleted"@);
    lemma_no_kind(more, "checkout"@);
    if step.created {
        assert(first =~= seq![first[0]]);
        lemma_filter_one(first[0], is_kind("branch_created"@));
        lemma_filter_one(first[0], is_kind("branch_deleted"@));
        lemma_filter_one(first[0], is_kind("checkout"@));
    } else {
        assert(first.len() == 0);
        lemma_no_kind(first, "branch_created"@);
        lemma_no_kind(first, "branch_deleted"@);
        lemma_no_kind(first, "checkout"@);
    }
}

/// Whether an event comes from taking in one of the branches.
pub open spec fn comes_of_steps(
    e: StoredModel,
    id: int,
    now: i64,
    steps: Seq<StepModel>,
    logs: Seq<Result<Seq<CommitModel>, Seq<char>>>,
) -> bool {
    exists|k: int|
        0 <= k < steps.len() && comes_of_step(e, id, now, #[trigger] steps[k], logs[k])
}

/// Whether one of the events tells of the branch.
pub open spec fn told_of_branch(
    events: Seq<StoredModel>,
    id: int,
    kind: Seq<char>,
    now: i64,
    branch: Seq<char>,
    sha: Seq<char>,
) -> bool {
    exists|m: int|
        0 <= m < events.len() && tells_branch(#[trigger] events[m], id, kind, now, branch, sha)
}

proof fn lemma_told_in_part(
    a: Seq<StoredModel>,
    b: Seq<StoredModel>,
    id: int,
    kind: Seq<char>,
    now: i64,
    branch: Seq<char>,
    sha: Seq<char>,
)
    requires
        told_of_branch(a, id, kind, now, branch, sha) || told_of_branch(
            b,
            id,
            kind,
            now,
            branch,
            sha,
        ),
    ensures
        told_of_branch(a + b, id, kind, now, branch, sha),
{
    if told_of_branch(a, id, kind, now, branch, sha) {
        let m = choose|m: int|
            0 <= m < a.len() && tells_branch(#[trigger] a[m], id, kind, now, branch, sha);
        assert((a + b)[m] == a[m]);
    } else {
        let m = choose|m: int|
            0 <= m < b.len() && tells_branch(#[trigger] b[m], id, kind, now, branch, sha);
        assert((a + b)[a.len() + m] == b[m]);
    }
}

proof fn lemma_steps(
    s: StoreModel,
    id: int,
    now: i64,
    steps: Seq<StepModel>,
    logs: Seq<Result<Seq<CommitModel>, Seq<char>>>,
)
    requires
        collector::steps_are_kept(steps, logs),
        collector::steps_recorded(s, id, now, steps, logs).1 is Ok,
    ensures
        ({
            let t = collector::steps_recorded(s, id, now, steps, logs).0;
            let new = fresh(s, t);
            &&& grows(s, t)
            &&& forall|m: int|
                0 <= m < new.len() ==> comes_of_steps(#[trigger] new[m], id, now, steps, logs)
            &&& forall|k: int|
                0 <= k < steps.len() && (#[trigger] steps[k]).created ==> told_of_branch(
                    new,
                    id,
                    "branch_created"@,
                    now,
                    steps[k].branch,
                    steps[k].sha,
                )
            &&& forall|k: int, i: int|
                0 <= k < steps.len() && 0 <= i < logs[k]->Ok_0.len() ==> knows_commit(
                    t.events,
                    id,
                    (#[trigger] logs[k]->Ok_0[i]).sha,
                )
            &&& new.filter(is_kind("branch_created"@)).len() == steps.filter(takes_in_new()).len()
            &&& new.filter(is_kind("branch_deleted"@)).len() == 0
            &&& new.filter(is_kind("checkout"@)).len() == 0
        }),
    decreases steps.len(),
{
    let u = collector::steps_recorded(s, id, now, steps, logs).0;
    if steps.len() == 0 {
        lemma_no_kind(fresh(s, u), "branch_created"@);
        lemma_no_kind(fresh(s, u), "branch_deleted"@);
        lemma_no_kind(fresh(s, u), "checkout"@);
        reveal(Seq::filter);
    } else {
        let rest = steps.drop_last();
        let step = steps.last();
        let log = logs[steps.len() - 1];
        assert forall|k: int| 0 <= k < rest.len() implies collector::step_is_kept(
            #[trigger] rest[k],
            logs[k],
        ) by {
            assert(rest[k] == steps[k]);
        }
        lemma_steps(s, id, now, rest, logs);
        let t = collector::steps_recorded(s, id, now, rest, logs).0;
        assert(collector::step_is_kept(steps[steps.len() - 1], logs[steps.len() - 1]));
        lemma_step(t, id, now, step, log);
        lemma_fresh(s, t, u);
        let old = fresh(s, t);
        let more = fresh(t, u);
        let new = fresh(s, u);
        assert forall|m: int| 0 <= m < new.len() implies comes_of_steps(
            #[trigger] new[m],
            id,
            now,
            steps,
            logs,
        ) by {
            if m < old.len() {
                assert(new[m] == old[m]);
                let k = choose|k: int|
                    0 <= k < rest.len() && comes_of_step(
                        old[m],
                        id,
                        now,
                        #[trigger] rest[k],
                        logs[k],
                    );
                assert(steps[k] == rest[k]);
            } else {
                assert(new[m] == more[m - old.len()]);
                assert(steps[steps.len() - 1] == step);
            }
        }
        assert forall|k: int| 0 <= k < steps.len() && (#[trigger] steps[k]).created implies
            told_of_branch(
            new,
            id,
            "branch_created"@,
            now,
            steps[k].branch,
            steps[k].sha,
        ) by {
            if k < rest.len() {
                assert(rest[k] == steps[k]);
            } else {
                assert(tells_branch(
                    more[0],
                    id,
                    "branch_created"@,
                    now,
                    steps[k].branch,
                    steps[k].sha,
                ));
            }
            lemma_told_in_part(
                old,
                more,
                id,
                "branch_created"@,
                now,
                steps[k].branch,
                steps[k].sha,
            );
        }
        assert forall|k: int, i: int|
            0 <= k < steps.len() && 0 <= i < logs[k]->Ok_0.len() implies knows_commit(
            u.events,
            id,
            (#[trigger] logs[k]->Ok_0[i]).sha,
        ) by {
            if k < rest.len() {
                lemma_still_known(t, u, id, logs[k]->Ok_0[i].sha);
            }
        }
        Seq::filter_distributes_over_add(old, more, is_kind("branch_created"@));
        Seq::filter_distributes_over_add(old, more, is_kind("branch_deleted"@));
        Seq::filter_distributes_over_add(old, more, is_kind("checkout"@));
        assert(steps =~= rest + seq![step]);
        Seq::filter_distributes_over_add(rest, seq![step], takes_in_new());
        lemma_filter_one(step, takes_in_new());
    }
}

proof fn lemma_gone(s: StoreModel, id: int, now: i64, gone: Seq<RefModel>)
    requires
        collector::gone_are_kept(gone),
        collector::gone_recorded(s, id, now, gone).1 is Ok,
    ensures
        ({
            let t = collector::gone_recorded(s, id, now, gone).0;
            let new = fresh(s, t);
            &&& grows(s, t)
            &&& new.len() == gone.len()
            &&& forall|k: int|
                0 <= k < gone.len() ==> tells_branch(
                    #[trigger] new[k],
                    id,
                    "branch_deleted"@,
                    now,
                    gone[k].name,
                    gone[k].sha,
                )
        }),
    decreases gone.len(),
{
    let v = collector::gone_recorded(s, id, now, gone).0;
    if gone.len() > 0 {
        let rest = gone.drop_last();
        let row = gone.last();
        assert forall|k: int| 0 <= k < rest.len() implies json::is_kept(
            collector::branch_payload((#[trigger] rest[k]).name, rest[k].sha),
        ) by {
            assert(rest[k] == gone[k]);
        }
        lemma_gone(s, id, now, rest);
        let t = collector::gone_recorded(s, id, now, rest).0;
        let payload = collector::branch_payload(row.name, row.sha);
        assert(gone[gone.len() - 1] == row);
        assert(json::is_kept(payload));
        lemma_inserted(t, id, "branch_deleted"@, now, None, payload);
        lemma_branch_fields(row.name, row.sha);
        let u = t.insert_event(id, "branch_deleted"@, now, None, payload).0;
        assert(v.events == u.events);
        lemma_fresh(s, t, u);
        assert(fresh(s, v) == fresh(s, u));
        assert forall|k: int| 0 <= k < gone.len() implies tells_branch(
            #[trigger] fresh(s, v)[k],
            id,
            "branch_deleted"@,
            now,
            gone[k].name,
            gone[k].sha,
        ) by {
            if k < rest.len() {
                assert(fresh(s, v)[k] == fresh(s, t)[k]);
                assert(rest[k] == gone[k]);
            } else {
                assert(fresh(s, v)[k] == fresh(t, u)[0]);
            }
        }
    }
}

// --- scans ---------------------------------------------------------------

/// Whether the project has no tip of the branch.
pub open spec fn is_unknown(s: StoreModel, id: int, branch: Seq<char>) -> bool {
    forall|sha: Seq<char>| !#[trigger] s.refs.contains(collector_laws::tip(id, branch, sha))
}

/// Whether git reports the branch.
pub open spec fn is_reported(heads: Seq<(Seq<char>, Seq<char>)>, branch: Seq<char>) -> bool {
    exists|i: int| 0 <= i < heads.len() && (#[trigger] heads[i]).0 == branch
}

/// Reported branches of which the project has no tip.
pub open spec fn arrived(s: StoreModel, id: int) -> spec_fn((Seq<char>, Seq<char>)) -> bool {
    |head: (Seq<char>, Seq<char>)| is_unknown(s, id, head.0)
}

/// Tips of the project whose branches are reported no more.
pub open spec fn left(id: int, heads: Seq<(Seq<char>, Seq<char>)>) -> spec_fn(RefModel) -> bool {
    |row: RefModel| row.project_id == id && !is_reported(heads, row.name)
}

/// Whether the project was on one branch when it was last scanned and is on
/// another.
pub open spec fn moved_over(
    s: StoreModel,
    path: Seq<char>,
    head_branch: Option<Seq<char>>,
    from: Seq<char>,
    to: Seq<char>,
) -> bool {
    &&& s.find_project(path) matches Some(p) && p.last_scanned is Some && p.head_branch == Some(from)
    &&& head_branch == Some(to)
    &&& from != to
}

/// Whether there is a reason for an event in what git says and what was known.
pub open spec fn has_reason(
    s: StoreModel,
    id: int,
    path: Seq<char>,
    now: i64,
    heads: Seq<(Seq<char>, Seq<char>)>,
    answers: AnswersModel,
    e: StoredModel,
) -> bool {
    let steps = collector::planned(s, id, path, heads);
    ||| exists|i: int|
        {
            &&& 0 <= i < heads.len()
            &&& is_unknown(s, id, (#[trigger] heads[i]).0)
            &&& tells_branch(e, id, "branch_created"@, now, heads[i].0, heads[i].1)
        }
    ||| exists|k: int|
        {
            &&& 0 <= k < steps.len()
            &&& answers.logs[k] matches Ok(commits) && tells_one_of(
                e,
                id,
                now,
                commits,
                (#[trigger] steps[k]).branch,
            )
        }
    ||| exists|row: RefModel|
        {
            &&& #[trigger] s.refs.contains(row)
            &&& row.project_id == id && !is_reported(heads, row.name)
            &&& tells_branch(e, id, "branch_deleted"@, now, row.name, row.sha)
        }
    ||| exists|from: Seq<char>, to: Seq<char>|
        {
            &&& #[trigger] moved_over(s, path, answers.head_branch, from, to)
            &&& tells_checkout(e, id, now, from, to)
        }
}

/// Whether the journal `t` tells, beyond what `s` holds, of all that git says
/// of the project and that `s` did not know, and of nothing else.
pub open spec fn tells_scan(
    s: StoreModel,
    t: StoreModel,
    id: int,
    path: Seq<char>,
    now: i64,
    heads: Seq<(Seq<char>, Seq<char>)>,
    answers: AnswersModel,
) -> bool {
    let steps = collector::planned(s, id, path, heads);
    let new = fresh(s, t);
    &&& grows(s, t)
    &&& forall|m: int|
        0 <= m < new.len() ==> has_reason(s, id, path, now, heads, answers, #[trigger] new[m])
    &&& forall|i: int|
        0 <= i < heads.len() && is_unknown(s, id, (#[trigger] heads[i]).0) ==> told_of_branch(
            new,
            id,
            "branch_created"@,
            now,
            heads[i].0,
            heads[i].1,
        )
    &&& new.filter(is_kind("branch_created"@)).len() == heads.filter(arrived(s, id)).len()
    &&& forall|k: int, c: int|
        0 <= k < steps.len() && 0 <= c < answers.logs[k]->Ok_0.len() ==> knows_commit(
            t.events,
            id,
            (#[trigger] answers.logs[k]->Ok_0[c]).sha,
        )
    &&& forall|row: RefModel| #[trigger]
        s.refs.contains(row) && row.project_id == id && !is_reported(heads, row.name)
            ==> told_of_branch(new, id, "branch_deleted"@, now, row.name, row.sha)
    &&& new.filter(is_kind("branch_deleted"@)).len() == s.refs.filter(left(id, heads)).len()
    &&& forall|from: Seq<char>, to: Seq<char>| #[trigger]
        moved_over(s, path, answers.head_branch, from, to) ==> new.len() > 0 && tells_checkout(
            t.events.last(),
            id,
            now,
            from,
            to,
        ) && new.filter(is_kind("checkout"@)).len() == 1
}

pub proof fn lemma_same_filter<A>(s: Seq<A>, p: spec_fn(A) -> bool, q: spec_fn(A) -> bool)
    requires
        forall|i: int| 0 <= i < s.len() ==> p(#[trigger] s[i]) == q(s[i]),
    ensures
        s.filter(p) == s.filter(q),
    decreases s.len(),
{
    reveal(Seq::filter);
    if s.len() > 0 {
        assert forall|i: int| 0 <= i < s.drop_last().len() implies p(#[trigger] s.drop_last()[i])
            == q(s.drop_last()[i]) by {
            assert(s.drop_last()[i] == s[i]);
        }
        lemma_same_filter(s.drop_last(), p, q);
        assert(p(s[s.len() - 1]) == q(s[s.len() - 1]));
    } else {
        assert(s.filter(p) =~= s.filter(q));
    }
}

proof fn lemma_filter_twice<A>(s: Seq<A>, p: spec_fn(A) -> bool, q: spec_fn(A) -> bool, r: spec_fn(
    A,
) -> bool)
    requires
        forall|x: A| #[trigger] r(x) == (p(x) && q(x)),
    ensures
        s.filter(p).filter(q) == s.filter(r),
    decreases s.len(),
{
    reveal(Seq::filter);
    if s.len() > 0 {
        let x = s.last();
        lemma_filter_twice(s.drop_last(), p, q, r);
        assert(r(x) == (p(x) && q(x)));
        if p(x) {
            let kept = s.drop_last().filter(p);
            assert(kept.push(x).drop_last() =~= kept);
            assert(kept.push(x).last() == x);
        }
    } else {
        assert(s.filter(p) =~= Seq::<A>::empty());
    }
}

/// Whether a step takes in a reported branch, whose known tip is another or
/// of which no tip is known.
pub open spec fn is_step_of(
    s: StoreModel,
    id: int,
    head: (Seq<char>, Seq<char>),
    step: StepModel,
) -> bool {
    &&& step.branch == head.0 && step.sha == head.1
    &&& !s.refs.contains(collector_laws::tip(id, head.0, head.1))
    &&& step.created <==> is_unknown(s, id, head.0)
}

/// Whether a step takes in one of the reported branches.
pub open spec fn has_step(
    s: StoreModel,
    id: int,
    heads: Seq<(Seq<char>, Seq<char>)>,
    step: StepModel,
) -> bool {
    exists|i: int| 0 <= i < heads.len() && is_step_of(s, id, #[trigger] heads[i], step)
}

/// Whether steps for new branches stand behind the others.
pub open spec fn new_ones_come_last(steps: Seq<StepModel>) -> bool {
    forall|k: int, m: int|
        0 <= k < m < steps.len() && (#[trigger] steps[k]).created ==> (#[trigger] steps[m]).created
}

/// What the steps of a scan are: a branch of which no tip is known is created,
/// one whose known tip is another is not, and one whose known tip is the
/// reported one has no step. Known branches come before new ones.
pub proof fn new_branches_are_told_from_moved_ones(
    s: StoreModel,
    id: int,
    heads: Seq<(Seq<char>, Seq<char>)>,
)
    requires
        s.wf(),
    ensures
        ({
            let steps = collector::steps_of(heads, s.refs_of(id));
            &&& forall|k: int|
                0 <= k < steps.len() ==> has_step(s, id, heads, #[trigger] steps[k])
            &&& forall|i: int|
                0 <= i < heads.len() && !s.refs.contains(
                    collector_laws::tip(id, (#[trigger] heads[i]).0, heads[i].1),
                ) ==> exists|k: int|
                    0 <= k < steps.len() && is_step_of(s, id, heads[i], #[trigger] steps[k])
            &&& new_ones_come_last(steps)
            &&& steps.filter(takes_in_new()).len() == heads.filter(arrived(s, id)).len()
        }),
{
    let cursors = s.refs_of(id);
    let steps = collector::steps_of(heads, cursors);
    let p = collector::is_moved(cursors);
    let q = collector::is_created(cursors);
    let moved = heads.filter(p);
    let created = heads.filter(q);
    let first = moved.map_values(collector::step_for(false, collector::known_tips(cursors)));
    let second = created.map_values(
        collector::step_for(true, collector::known_to_new(heads, cursors)),
    );
    let n: int = moved.len() as int;
    assert(steps == first + second);
    order::lemma_filter_contains(heads, p);
    order::lemma_filter_contains(heads, q);
    assert forall|i: int| 0 <= i < heads.len() implies q(#[trigger] heads[i]) == is_unknown(
        s,
        id,
        heads[i].0,
    ) && (p(heads[i]) <==> (!is_unknown(s, id, heads[i].0) && !s.refs.contains(
        collector_laws::tip(id, heads[i].0, heads[i].1),
    ))) by {
        collector_laws::lemma_cursor(s, id, heads[i].0);
    }
    assert forall|k: int| 0 <= k < steps.len() implies has_step(
        s,
        id,
        heads,
        #[trigger] steps[k],
    ) by {
        if k < n {
            assert(moved.contains(moved[k]));
            let i = choose|i: int| 0 <= i < heads.len() && heads[i] == moved[k];
            assert(p(heads[i]));
            assert(steps[k] == first[k]);
            assert(is_step_of(s, id, heads[i], steps[k]));
        } else {
            assert(created.contains(created[k - n]));
            let i = choose|i: int| 0 <= i < heads.len() && heads[i] == created[k - n];
            assert(q(heads[i]));
            assert(steps[k] == second[k - n]);
            assert(is_step_of(s, id, heads[i], steps[k]));
        }
    }
    assert forall|i: int|
        0 <= i < heads.len() && !s.refs.contains(
            collector_laws::tip(id, (#[trigger] heads[i]).0, heads[i].1),
        ) implies exists|k: int|
        0 <= k < steps.len() && is_step_of(s, id, heads[i], #[trigger] steps[k]) by {
        assert(heads.contains(heads[i]));
        if is_unknown(s, id, heads[i].0) {
            assert(created.contains(heads[i]));
            let k = choose|k: int| 0 <= k < created.len() && created[k] == heads[i];
            assert(steps[n + k] == second[k]);
            assert(is_step_of(s, id, heads[i], steps[n + k]));
        } else {
            assert(moved.contains(heads[i]));
            let k = choose|k: int| 0 <= k < moved.len() && moved[k] == heads[i];
            assert(steps[k] == first[k]);
            assert(is_step_of(s, id, heads[i], steps[k]));
        }
    }
    assert forall|k: int| 0 <= k < steps.len() implies (#[trigger] steps[k]).created == (k
        >= n) by {
        if k < n {
            assert(steps[k] == first[k]);
        } else {
            assert(steps[k] == second[k - n]);
        }
    }
    assert(new_ones_come_last(steps));
    Seq::filter_distributes_over_add(first, second, takes_in_new());
    order::lemma_filter_empty(first, takes_in_new());
    lemma_all_kept(second, takes_in_new());
    lemma_same_filter(heads, q, arrived(s, id));
}

pub proof fn lemma_all_kept<A>(s: Seq<A>, p: spec_fn(A) -> bool)
    requires
        forall|i: int| 0 <= i < s.len() ==> p(#[trigger] s[i]),
    ensures
        s.filter(p) == s,
    decreases s.len(),
{
    reveal(Seq::filter);
    if s.len() > 0 {
        assert forall|i: int| 0 <= i < s.drop_last().len() implies p(
            #[trigger] s.drop_last()[i],
        ) by {
            assert(s.drop_last()[i] == s[i]);
        }
        lemma_all_kept(s.drop_last(), p);
        assert(p(s[s.len() - 1]));
        assert(s.drop_last().push(s.last()) =~= s);
    } else {
        assert(s.filter(p) =~= s);
    }
}

proof fn lemma_gone_is_unreported(heads: Seq<(Seq<char>, Seq<char>)>, row: RefModel)
    ensures
        collector::is_gone(heads)(row) == !is_reported(heads, row.name),
{
    let branches = heads.map_values(collector::branch_of());
    if is_reported(heads, row.name) {
        let i = choose|i: int| 0 <= i < heads.len() && (#[trigger] heads[i]).0 == row.name;
        assert(branches[i] == row.name);
    }
    if branches.contains(row.name) {
        let i = choose|i: int| 0 <= i < branches.len() && branches[i] == row.name;
        assert(heads[i].0 == row.name);
    }
}

/// What a scan of a project that was met before writes: an event for each
/// branch that is new, gone or switched to, each once, and for each commit of
/// the logs of the branches; the checkout is the last of them. It writes
/// nothing else.
pub proof fn a_scan_tells_what_is_new(
    s: StoreModel,
    id: int,
    path: Seq<char>,
    now: i64,
    heads: Seq<(Seq<char>, Seq<char>)>,
    answers: AnswersModel,
)
    requires
        s.wf(),
        answers.heads == Ok::<Seq<(Seq<char>, Seq<char>)>, Seq<char>>(heads),
        !collector::first_meeting(s, id, path),
        collector::scan_is_kept(s, id, path, answers),
        collector::scanned(s, id, path, now, answers).1 is Ok,
    ensures
        tells_scan(
            s,
            collector::scanned(s, id, path, now, answers).0,
            id,
            path,
            now,
            heads,
            answers,
        ),
{
    lemma_kinds();
    let cursors = s.refs_of(id);
    let steps = collector::steps_of(heads, cursors);
    assert(collector::planned(s, id, path, heads) == steps);
    let gone = cursors.filter(collector::is_gone(heads));
    lemma_steps(s, id, now, steps, answers.logs);
    let t = collector::steps_recorded(s, id, now, steps, answers.logs).0;
    lemma_gone(t, id, now, gone);
    let u = collector::gone_recorded(t, id, now, gone).0;
    let change = collector::switched(s, path, answers.head_branch);
    let v = collector::checkout_recorded(u, id, now, change).0;
    let w = collector::scanned(s, id, path, now, answers).0;
    assert(w.events == v.events);
    let a = fresh(s, t);
    let b = fresh(t, u);
    let c = fresh(u, v);
    lemma_fresh(s, t, u);
    if change is Some {
        let (from, to) = change->Some_0;
        lemma_inserted(u, id, "checkout"@, now, None, collector::checkout_payload(from, to));
        lemma_checkout_fields(from, to);
        assert(tells_checkout(c[0], id, now, from, to));
        assert(moved_over(s, path, answers.head_branch, from, to));
        assert(c =~= seq![c[0]]);
        lemma_filter_one(c[0], is_kind("checkout"@));
        lemma_filter_one(c[0], is_kind("branch_created"@));
        lemma_filter_one(c[0], is_kind("branch_deleted"@));
    } else {
        lemma_no_kind(c, "checkout"@);
        lemma_no_kind(c, "branch_created"@);
        lemma_no_kind(c, "branch_deleted"@);
    }
    lemma_fresh(s, u, v);
    let new = fresh(s, w);
    assert(new == a + b + c);
    new_branches_are_told_from_moved_ones(s, id, heads);
    order::lemma_filter_contains(s.refs, store::is_ref_of(id));
    order::lemma_filter_contains(cursors, collector::is_gone(heads));
    assert forall|k: int| 0 <= k < gone.len() implies (#[trigger] gone[k]).project_id == id
        && s.refs.contains(gone[k]) && !is_reported(heads, gone[k].name) by {
        assert(gone.contains(gone[k]));
        lemma_gone_is_unreported(heads, gone[k]);
    }
    assert forall|m: int| 0 <= m < new.len() implies has_reason(
        s,
        id,
        path,
        now,
        heads,
        answers,
        #[trigger] new[m],
    ) by {
        let e = new[m];
        if m < a.len() {
            assert(e == a[m]);
            let k = choose|k: int|
                0 <= k < steps.len() && comes_of_step(
                    e,
                    id,
                    now,
                    #[trigger] steps[k],
                    answers.logs[k],
                );
            assert(has_step(s, id, heads, steps[k]));
            let i = choose|i: int|
                0 <= i < heads.len() && is_step_of(s, id, #[trigger] heads[i], steps[k]);
            if steps[k].created && tells_branch(
                e,
                id,
                "branch_created"@,
                now,
                steps[k].branch,
                steps[k].sha,
            ) {
                assert(is_unknown(s, id, heads[i].0));
            }
        } else if m < a.len() + b.len() {
            let k = m - a.len();
            assert(e == b[k]);
            assert(s.refs.contains(gone[k]));
        } else {
            assert(e == c[0]);
        }
    }
    assert forall|i: int| 0 <= i < heads.len() && is_unknown(s, id, (#[trigger] heads[i]).0) implies
        told_of_branch(new, id, "branch_created"@, now, heads[i].0, heads[i].1) by {
        let k = choose|k: int|
            0 <= k < steps.len() && is_step_of(s, id, heads[i], #[trigger] steps[k]);
        assert(steps[k].created);
        lemma_told_in_part(a, b, id, "branch_created"@, now, heads[i].0, heads[i].1);
        lemma_told_in_part(a + b, c, id, "branch_created"@, now, heads[i].0, heads[i].1);
    }
    assert forall|k: int, x: int|
        0 <= k < steps.len() && 0 <= x < answers.logs[k]->Ok_0.len() implies knows_commit(
        w.events,
        id,
        (#[trigger] answers.logs[k]->Ok_0[x]).sha,
    ) by {
        lemma_still_known(t, u, id, answers.logs[k]->Ok_0[x].sha);
        lemma_still_known(u, v, id, answers.logs[k]->Ok_0[x].sha);
    }
    assert forall|row: RefModel| #[trigger]
        s.refs.contains(row) && row.project_id == id && !is_reported(heads, row.name) implies
        told_of_branch(new, id, "branch_deleted"@, now, row.name, row.sha) by {
        lemma_gone_is_unreported(heads, row);
        assert(cursors.contains(row));
        assert(gone.contains(row));
        let k = choose|k: int| 0 <= k < gone.len() && gone[k] == row;
        assert(tells_branch(b[k], id, "branch_deleted"@, now, row.name, row.sha));
        lemma_told_in_part(a, b, id, "branch_deleted"@, now, row.name, row.sha);
        lemma_told_in_part(a + b, c, id, "branch_deleted"@, now, row.name, row.sha);
    }
    lemma_counts(a, b, c);
    assert forall|k: int| 0 <= k < b.len() implies (#[trigger] b[k]).kind == "branch_deleted"@ by {
        assert(tells_branch(b[k], id, "branch_deleted"@, now, gone[k].name, gone[k].sha));
    }
    lemma_no_kind(b, "branch_created"@);
    lemma_no_kind(b, "checkout"@);
    lemma_all_kept(b, is_kind("branch_deleted"@));
    assert forall|row: RefModel| #[trigger]
        left(id, heads)(row) == (store::is_ref_of(id)(row) && collector::is_gone(heads)(row)) by {
        lemma_gone_is_unreported(heads, row);
    }
    lemma_filter_twice(s.refs, store::is_ref_of(id), collector::is_gone(heads), left(id, heads));
    assert forall|from: Seq<char>, to: Seq<char>| #[trigger]
        moved_over(s, path, answers.head_branch, from, to) implies new.len() > 0 && tells_checkout(
        w.events.last(),
        id,
        now,
        from,
        to,
    ) && new.filter(is_kind("checkout"@)).len() == 1 by {
        assert(change == Some((from, to)));
        assert(w.events.last() == new.last());
        assert(new.last() == c[0]);
    }
}

proof fn lemma_counts(a: Seq<StoredModel>, b: Seq<StoredModel>, c: Seq<StoredModel>)
    ensures
        forall|kind: Seq<char>|
            (a + b + c).filter(#[trigger] is_kind(kind)).len() == a.filter(is_kind(kind)).len()
                + b.filter(is_kind(kind)).len() + c.filter(is_kind(kind)).len(),
{
    assert forall|kind: Seq<char>|
        (a + b + c).filter(#[trigger] is_kind(kind)).len() == a.filter(is_kind(kind)).len()
            + b.filter(is_kind(kind)).len() + c.filter(is_kind(kind)).len() by {
        Seq::filter_distributes_over_add(a + b, c, is_kind(kind));
        Seq::filter_distributes_over_add(a, b, is_kind(kind));
    }
}

// --- scans and digests ---------------------------------------------------

/// Whether a digest has a section for a project in which a property holds.
pub open spec fn has_section(
    d: DigestModel,
    project: Seq<char>,
    p: spec_fn(digest::ProjectDigestModel) -> bool,
) -> bool {
    exists|k: int|
        0 <= k < d.projects.len() && (#[trigger] d.projects[k]).name == project && p(d.projects[k])
}

/// What a digest says of a project whose scan falls into its period: the
/// branch that was switched to is among the checkouts, new branches are among
/// those created and lost ones among those deleted, and the commits that were
/// not known are among the commits.
pub proof fn a_digest_tells_what_a_scan_saw(
    s: StoreModel,
    id: int,
    path: Seq<char>,
    now: i64,
    heads: Seq<(Seq<char>, Seq<char>)>,
    answers: AnswersModel,
    from: int,
    to: int,
    period_from: Seq<char>,
    period_to: Seq<char>,
)
    requires
        s.wf(),
        answers.heads == Ok::<Seq<(Seq<char>, Seq<char>)>, Seq<char>>(heads),
        !collector::first_meeting(s, id, path),
        collector::scan_is_kept(s, id, path, answers),
        collector::scanned(s, id, path, now, answers).1 is Ok,
        from < now <= to,
    ensures
        ({
            let t = collector::scanned(s, id, path, now, answers).0;
            let d = digest::digest_of(
                t.events_between(from, to),
                t.by_name(),
                period_from,
                period_to,
            );
            let name = t.name_of(id);
            let steps = collector::planned(s, id, path, heads);
            &&& forall|a: Seq<char>, b: Seq<char>| #[trigger]
                moved_over(s, path, answers.head_branch, a, b) ==> has_section(
                    d,
                    name,
                    |p: digest::ProjectDigestModel| p.checkouts.contains(b),
                )
            &&& forall|i: int|
                0 <= i < heads.len() && is_unknown(s, id, (#[trigger] heads[i]).0) ==> has_section(
                    d,
                    name,
                    |p: digest::ProjectDigestModel| p.branches_created.contains(heads[i].0),
                )
            &&& forall|row: RefModel| #[trigger]
                s.refs.contains(row) && row.project_id == id && !is_reported(heads, row.name)
                    ==> has_section(
                    d,
                    name,
                    |p: digest::ProjectDigestModel| p.branches_deleted.contains(row.name),
                )
            &&& forall|k: int, c: int|
                0 <= k < steps.len() && 0 <= c < answers.logs[k]->Ok_0.len() && !knows_commit(
                    s.events,
                    id,
                    (#[trigger] answers.logs[k]->Ok_0[c]).sha,
                ) ==> has_section(
                    d,
                    name,
                    |p: digest::ProjectDigestModel|
                        exists|x: int|
                            0 <= x < p.commits.len() && (#[trigger] p.commits[x]).sha
                                == order::first(answers.logs[k]->Ok_0[c].sha, 7),
                )
        }),
{
    a_scan_tells_what_is_new(s, id, path, now, heads, answers);
    lemma_kinds();
    lemma_project_kinds();
    let t = collector::scanned(s, id, path, now, answers).0;
    let new = fresh(s, t);
    let n = s.events.len() as int;
    let d = digest::digest_of(t.events_between(from, to), t.by_name(), period_from, period_to);
    let name = t.name_of(id);
    let steps = collector::planned(s, id, path, heads);
    period_laws::lemma_period_told(t, from, to, period_from, period_to);
    assert forall|m: int| 0 <= m < new.len() implies #[trigger] new[m] == t.events[n + m] by {}
    assert forall|a: Seq<char>, b: Seq<char>| #[trigger]
        moved_over(s, path, answers.head_branch, a, b) implies has_section(
        d,
        name,
        |p: digest::ProjectDigestModel| p.checkouts.contains(b),
    ) by {
        let e = t.events[t.events.len() - 1];
        assert(tells_checkout(e, id, now, a, b));
        assert(period_laws::tells_event(d, name, e.kind, e.payload));
    }
    assert forall|i: int| 0 <= i < heads.len() && is_unknown(s, id, (#[trigger] heads[i]).0) implies
        has_section(
        d,
        name,
        |p: digest::ProjectDigestModel| p.branches_created.contains(heads[i].0),
    ) by {
        let m = choose|m: int|
            0 <= m < new.len() && tells_branch(
                #[trigger] new[m],
                id,
                "branch_created"@,
                now,
                heads[i].0,
                heads[i].1,
            );
        let e = t.events[n + m];
        assert(new[m] == e);
        assert(period_laws::tells_event(d, name, e.kind, e.payload));
    }
    assert forall|row: RefModel| #[trigger]
        s.refs.contains(row) && row.project_id == id && !is_reported(heads, row.name) implies
        has_section(
        d,
        name,
        |p: digest::ProjectDigestModel| p.branches_deleted.contains(row.name),
    ) by {
        let m = choose|m: int|
            0 <= m < new.len() && tells_branch(
                #[trigger] new[m],
                id,
                "branch_deleted"@,
                now,
                row.name,
                row.sha,
            );
        let e = t.events[n + m];
        assert(new[m] == e);
        assert(period_laws::tells_event(d, name, e.kind, e.payload));
    }
    assert forall|k: int, c: int|
        0 <= k < steps.len() && 0 <= c < answers.logs[k]->Ok_0.len() && !knows_commit(
            s.events,
            id,
            (#[trigger] answers.logs[k]->Ok_0[c]).sha,
        ) implies has_section(
        d,
        name,
        |p: digest::ProjectDigestModel|
            exists|x: int|
                0 <= x < p.commits.len() && (#[trigger] p.commits[x]).sha == order::first(
                    answers.logs[k]->Ok_0[c].sha,
                    7,
                ),
    ) by {
        let sha = answers.logs[k]->Ok_0[c].sha;
        let j = choose|j: int|
            0 <= j < t.events.len() && (#[trigger] t.events[j]).project_id == id && t.events[j].sha
                == Some(sha);
        let e = t.events[j];
        if j < n {
            assert(s.events[j] == e);
        }
        assert(new[j - n] == e);
        assert(has_reason(s, id, path, now, heads, answers, new[j - n]));
        let y = choose|y: int|
            {
                &&& 0 <= y < steps.len()
                &&& answers.logs[y] matches Ok(commits) && tells_one_of(
                    e,
                    id,
                    now,
                    commits,
                    (#[trigger] steps[y]).branch,
                )
            };
        assert(e.kind == "commit"@ && has_text(e.payload, "sha"@, sha));
        assert(period_laws::tells_event(d, name, e.kind, e.payload));
        let z = choose|z: int|
            0 <= z < d.projects.len() && (#[trigger] d.projects[z]).name == name
                && d.projects[z].commits.contains(period_laws::said_of_commit(e.payload));
        let commits = d.projects[z].commits;
        let x = choose|x: int|
            0 <= x < commits.len() && commits[x] == period_laws::said_of_commit(e.payload);
        assert(commits[x].sha == order::first(sha, 7));
    }
}

proof fn lemma_project_kinds()
    ensures
        "commit"@ != "project_added"@ && "commit"@ != "project_removed"@,
        "checkout"@ != "project_added"@ && "checkout"@ != "project_removed"@,
        "branch_created"@ != "project_added"@ && "branch_created"@ != "project_removed"@,
        "branch_deleted"@ != "project_added"@ && "branch_deleted"@ != "project_removed"@,
{
    reveal_strlit("commit");
    reveal_strlit("checkout");
    reveal_strlit("branch_created");
    reveal_strlit("branch_deleted");
    reveal_strlit("project_added");
    reveal_strlit("project_removed");
    assert("commit"@[0] == 'c' && "checkout"@[0] == 'c');
    assert("branch_created"@[0] == 'b' && "branch_deleted"@[0] == 'b');
    assert("project_added"@[0] == 'p' && "project_removed"@[0] == 'p');
}

// --- the order of a scan -------------------------------------------------

/// Taking in a branch, that it is new is written first, and then its commits
/// that the journal does not know, in the order in which they were made, each
/// once: git gives the newest first.
pub proof fn commits_are_written_oldest_first(
    s: StoreModel,
    id: int,
    now: i64,
    step: StepModel,
    commits: Seq<CommitModel>,
)
    requires
        collector::step_is_kept(step, Ok(commits)),
        collector::step_recorded(s, id, now, step, Ok(commits)).1 is Ok,
        forall|i: int|
            0 <= i < commits.len() ==> !knows_commit(s.events, id, (#[trigger] commits[i]).sha),
        forall|i: int, j: int|
            0 <= i < j < commits.len() ==> (#[trigger] commits[i]).sha != (#[trigger] commits[j]).sha,
    ensures
        ({
            let new = fresh(s, collector::step_recorded(s, id, now, step, Ok(commits)).0);
            let first = if step.created {
                1int
            } else {
                0
            };
            &&& new.len() == commits.len() + first
            &&& step.created ==> tells_branch(
                new[0],
                id,
                "branch_created"@,
                now,
                step.branch,
                step.sha,
            )
            &&& forall|i: int|
                0 <= i < commits.len() ==> tells_commit(
                    new[first + (commits.len() - 1 - i)],
                    id,
                    now,
                    #[trigger] commits[i],
                    step.branch,
                )
        }),
{
    let log: Result<Seq<CommitModel>, Seq<char>> = Ok(commits);
    lemma_step(s, id, now, step, log);
    let payload = collector::branch_payload(step.branch, step.sha);
    let t = if step.created {
        s.insert_event(id, "branch_created"@, now, None, payload).0
    } else {
        s
    };
    if step.created {
        lemma_inserted(s, id, "branch_created"@, now, None, payload);
    }
    let turned = commits.reverse();
    assert forall|i: int| 0 <= i < turned.len() implies json::is_kept(
        collector::commit_payload(#[trigger] turned[i], step.branch),
    ) && !knows_commit(t.events, id, turned[i].sha) by {
        let c = commits[commits.len() - 1 - i];
        assert(turned[i] == c);
        if knows_commit(t.events, id, c.sha) {
            let k = choose|k: int|
                0 <= k < t.events.len() && (#[trigger] t.events[k]).project_id == id
                    && t.events[k].sha == Some(c.sha);
            if k < s.events.len() {
                assert(s.events[k] == t.events[k]);
                assert(knows_commit(s.events, id, c.sha));
            } else {
                assert(fresh(s, t)[k - s.events.len()] == t.events[k]);
            }
        }
    }
    assert forall|i: int, j: int| 0 <= i < j < turned.len() implies (#[trigger] turned[i]).sha != (
    #[trigger] turned[j]).sha by {
        assert(turned[i] == commits[commits.len() - 1 - i]);
        assert(turned[j] == commits[commits.len() - 1 - j]);
    }
    lemma_in_turn(t, id, now, step.branch, turned);
    let u = collector::commits_recorded(t, id, now, step.branch, turned).0;
    let v = collector::step_recorded(s, id, now, step, log).0;
    assert(v.events == u.events);
    lemma_fresh(s, t, u);
    let new = fresh(s, v);
    let first = fresh(s, t).len() as int;
    assert(first == (if step.created {
        1int
    } else {
        0
    }));
    assert forall|i: int| 0 <= i < commits.len() implies tells_commit(
        new[first + (commits.len() - 1 - i)],
        id,
        now,
        #[trigger] commits[i],
        step.branch,
    ) by {
        let k = commits.len() - 1 - i;
        assert(turned[k] == commits[i]);
        assert(new[first + k] == fresh(t, u)[k]);
        assert(tells_commit(fresh(t, u)[k], id, now, turned[k], step.branch));
    }
}

/// A project is met for the first time if it was never scanned and no tip of
/// it is known, and only then.
pub proof fn a_known_project_is_not_met_again(s: StoreModel, id: int, path: Seq<char>)
    ensures
        collector::first_meeting(s, id, path) <==> (forall|row: RefModel| #[trigger]
            s.refs.contains(row) ==> row.project_id != id) && !(s.find_project(path) matches Some(p)
            && p.last_scanned is Some),
{
    let cursors = s.refs_of(id);
    order::lemma_filter_contains(s.refs, store::is_ref_of(id));
    if cursors.len() > 0 {
        assert(cursors.contains(cursors[0]));
        assert(s.refs.contains(cursors[0]));
    } else {
        assert forall|row: RefModel| #[trigger] s.refs.contains(row) implies row.project_id
            != id by {
            if row.project_id == id {
                assert((store::is_ref_of(id))(row));
                assert(cursors.contains(row));
            }
        }
    }
}

/// Whether a commit is reported as the tip of a branch that is known.
pub open spec fn is_tip_of_known(
    s: StoreModel,
    id: int,
    heads: Seq<(Seq<char>, Seq<char>)>,
    sha: Seq<char>,
) -> bool {
    exists|i: int|
        0 <= i < heads.len() && (#[trigger] heads[i]).1 == sha && !is_unknown(s, id, heads[i].0)
}

/// Nothing but known history is left out of a log: a commit that is excluded
/// is a tip that was known, or, for a new branch, the reported tip of a branch
/// that was known.
pub proof fn only_known_history_is_excluded(
    s: StoreModel,
    id: int,
    heads: Seq<(Seq<char>, Seq<char>)>,
    k: int,
    sha: Seq<char>,
)
    requires
        s.wf(),
        0 <= k < collector::steps_of(heads, s.refs_of(id)).len(),
        collector::steps_of(heads, s.refs_of(id))[k].exclude.contains(sha),
    ensures
        (exists|row: RefModel| #[trigger] s.refs.contains(row) && row.project_id == id && row.sha
            == sha) || (collector::steps_of(heads, s.refs_of(id))[k].created && is_tip_of_known(
            s,
            id,
            heads,
            sha,
        )),
{
    let cursors = s.refs_of(id);
    let steps = collector::steps_of(heads, cursors);
    let moved = heads.filter(collector::is_moved(cursors));
    let created = heads.filter(collector::is_created(cursors));
    let existing = heads.filter(collector::is_existing(cursors));
    let tips = collector::known_tips(cursors);
    let more = existing.map_values(collector::sha_of());
    let n = moved.len() as int;
    order::lemma_filter_contains(s.refs, store::is_ref_of(id));
    order::lemma_filter_contains(heads, collector::is_existing(cursors));
    let exclude = steps[k].exclude;
    if k < n {
        assert(steps[k] == (collector::step_for(false, tips))(moved[k]));
    } else {
        assert(steps[k] == (collector::step_for(true, tips + more))(created[k - n]));
    }
    let x = choose|x: int| 0 <= x < exclude.len() && exclude[x] == sha;
    if x < tips.len() {
        assert(tips[x] == cursors[x].sha);
        assert(cursors.contains(cursors[x]));
        assert(s.refs.contains(cursors[x]));
    } else {
        let y = x - tips.len();
        assert(exclude[x] == more[y]);
        assert(existing.contains(existing[y]));
        let i = choose|i: int| 0 <= i < heads.len() && heads[i] == existing[y];
        assert((collector::is_existing(cursors))(heads[i]));
        collector_laws::lemma_cursor(s, id, heads[i].0);
        assert(heads[i].1 == sha);
    }
}

} // verus!
