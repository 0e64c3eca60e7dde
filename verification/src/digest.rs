//! The digest of a period: the events of the journal, grouped by project.

use crate::collector;
use crate::json;
use crate::json::Json;
use crate::order;
use crate::period_laws;
use crate::store_laws;
use crate::store::{
    DigestRow, DigestRowModel, EventModel, EventRow, ProjectModel, ProjectRow, Store, StoreError,
    StoreModel,
};
use crate::text;
use crate::time;
use serde_json::Value;
use vstd::prelude::*;

verus! {

/// The commits of a project that a text lists; the rest is a number.
pub const MAX_COMMITS_IN_TEXT: usize = 8;

/// What happened in a period.
#[derive(Debug, Clone, PartialEq)]
pub struct Digest {
    pub period_from: String,
    pub period_to: String,
    pub totals: Totals,
    pub projects: Vec<ProjectDigest>,
    pub added_projects: Vec<String>,
    pub removed_projects: Vec<String>,
    /// Uncommitted work in projects without events in the period: the digest
    /// reminds of it, but it is no reason for a digest.
    pub uncommitted_elsewhere: Vec<Uncommitted>,
}

/// The sums over all projects.
#[derive(Debug, Clone, Copy, PartialEq)]
pub struct Totals {
    pub projects: usize,
    pub commits: usize,
    pub insertions: u64,
    pub deletions: u64,
}

/// What happened in one project.
#[derive(Debug, Clone, PartialEq)]
pub struct ProjectDigest {
    pub name: String,
    pub branch: Option<String>,
    pub commits: Vec<CommitBrief>,
    pub authors: Vec<String>,
    pub insertions: u64,
    pub deletions: u64,
    pub branches_created: Vec<String>,
    pub branches_deleted: Vec<String>,
    pub checkouts: Vec<String>,
    pub uncommitted_files: i64,
}

/// A commit in a digest.
#[derive(Debug, Clone, PartialEq)]
pub struct CommitBrief {
    pub sha: String,
    pub branch: String,
    pub author: String,
    pub subject: String,
    pub insertions: u64,
    pub deletions: u64,
}

/// Uncommitted work in a project.
#[derive(Debug, Clone, PartialEq)]
pub struct Uncommitted {
    pub name: String,
    pub files: i64,
}

impl Default for Digest {
    fn default() -> (r: Digest)
        ensures
            r@ == (DigestModel {
                period_from: seq![],
                period_to: seq![],
                totals: TotalsModel { projects: 0, commits: 0, insertions: 0, deletions: 0 },
                projects: seq![],
                added_projects: seq![],
                removed_projects: seq![],
                uncommitted_elsewhere: seq![],
            }),
    {
        Digest {
            period_from: String::new(),
            period_to: String::new(),
            totals: Totals::default(),
            projects: Vec::new(),
            added_projects: Vec::new(),
            removed_projects: Vec::new(),
            uncommitted_elsewhere: Vec::new(),
        }
    }
}

impl Default for Totals {
    fn default() -> (r: Totals)
        ensures
            r@ == (TotalsModel { projects: 0, commits: 0, insertions: 0, deletions: 0 }),
    {
        Totals { projects: 0, commits: 0, insertions: 0, deletions: 0 }
    }
}

impl Default for ProjectDigest {
    fn default() -> (r: ProjectDigest)
        ensures
            r@ == (ProjectDigestModel {
                name: seq![],
                branch: None,
                commits: seq![],
                authors: seq![],
                insertions: 0,
                deletions: 0,
                branches_created: seq![],
                branches_deleted: seq![],
                checkouts: seq![],
                uncommitted_files: 0,
            }),
    {
        let r = ProjectDigest {
            name: String::new(),
            branch: None,
            commits: Vec::new(),
            authors: Vec::new(),
            insertions: 0,
            deletions: 0,
            branches_created: Vec::new(),
            branches_deleted: Vec::new(),
            checkouts: Vec::new(),
            uncommitted_files: 0,
        };
        r
    }
}

/// What a digest holds.
#[verifier::ext_equal]
pub struct DigestModel {
    pub period_from: Seq<char>,
    pub period_to: Seq<char>,
    pub totals: TotalsModel,
    pub projects: Seq<ProjectDigestModel>,
    pub added_projects: Seq<Seq<char>>,
    pub removed_projects: Seq<Seq<char>>,
    pub uncommitted_elsewhere: Seq<UncommittedModel>,
}

/// What totals hold.
pub struct TotalsModel {
    pub projects: nat,
    pub commits: nat,
    pub insertions: nat,
    pub deletions: nat,
}

/// What the digest of a project holds.
#[verifier::ext_equal]
pub struct ProjectDigestModel {
    pub name: Seq<char>,
    pub branch: Option<Seq<char>>,
    pub commits: Seq<CommitBriefModel>,
    pub authors: Seq<Seq<char>>,
    pub insertions: nat,
    pub deletions: nat,
    pub branches_created: Seq<Seq<char>>,
    pub branches_deleted: Seq<Seq<char>>,
    pub checkouts: Seq<Seq<char>>,
    pub uncommitted_files: int,
}

/// What a commit in a digest holds.
pub struct CommitBriefModel {
    pub sha: Seq<char>,
    pub branch: Seq<char>,
    pub author: Seq<char>,
    pub subject: Seq<char>,
    pub insertions: nat,
    pub deletions: nat,
}

/// What a note of uncommitted work holds.
pub struct UncommittedModel {
    pub name: Seq<char>,
    pub files: int,
}

impl View for Digest {
    type V = DigestModel;

    open spec fn view(&self) -> DigestModel {
        DigestModel {
            period_from: self.period_from@,
            period_to: self.period_to@,
            totals: self.totals@,
            projects: order::views(self.projects@),
            added_projects: text::texts(self.added_projects@),
            removed_projects: text::texts(self.removed_projects@),
            uncommitted_elsewhere: order::views(self.uncommitted_elsewhere@),
        }
    }
}

impl View for Totals {
    type V = TotalsModel;

    open spec fn view(&self) -> TotalsModel {
        TotalsModel {
            projects: self.projects as nat,
            commits: self.commits as nat,
            insertions: self.insertions as nat,
            deletions: self.deletions as nat,
        }
    }
}

impl View for ProjectDigest {
    type V = ProjectDigestModel;

    open spec fn view(&self) -> ProjectDigestModel {
        ProjectDigestModel {
            name: self.name@,
            branch: text::text_opt(self.branch),
            commits: order::views(self.commits@),
            authors: text::texts(self.authors@),
            insertions: self.insertions as nat,
            deletions: self.deletions as nat,
            branches_created: text::texts(self.branches_created@),
            branches_deleted: text::texts(self.branches_deleted@),
            checkouts: text::texts(self.checkouts@),
            uncommitted_files: self.uncommitted_files as int,
        }
    }
}

impl View for CommitBrief {
    type V = CommitBriefModel;

    open spec fn view(&self) -> CommitBriefModel {
        CommitBriefModel {
            sha: self.sha@,
            branch: self.branch@,
            author: self.author@,
            subject: self.subject@,
            insertions: self.insertions as nat,
            deletions: self.deletions as nat,
        }
    }
}

impl View for Uncommitted {
    type V = UncommittedModel;

    open spec fn view(&self) -> UncommittedModel {
        UncommittedModel { name: self.name@, files: self.files as int }
    }
}

// --- the model -----------------------------------------------------------

/// Events of a kind.
pub open spec fn of_kind(kind: Seq<char>) -> spec_fn(EventModel) -> bool {
    |e: EventModel| e.kind == kind
}

/// Events of a kind in a project.
pub open spec fn in_project(name: Seq<char>, kind: Seq<char>) -> spec_fn(EventModel) -> bool {
    |e: EventModel| e.kind == kind && e.project == name
}

/// Events in projects, as opposed to those about projects.
pub open spec fn is_work() -> spec_fn(EventModel) -> bool {
    |e: EventModel| e.kind != "project_added"@ && e.kind != "project_removed"@
}

/// The name of an event's project.
pub open spec fn project_of() -> spec_fn(EventModel) -> Seq<char> {
    |e: EventModel| e.project
}

/// A field of an event's payload.
pub open spec fn field_of(key: Seq<char>) -> spec_fn(EventModel) -> Seq<char> {
    |e: EventModel| json::text_at(e.payload, key)
}

/// The commit that an event is about.
pub open spec fn brief_of() -> spec_fn(EventModel) -> CommitBriefModel {
    |e: EventModel|
        CommitBriefModel {
            sha: order::first(json::text_at(e.payload, "sha"@), 7),
            branch: json::text_at(e.payload, "branch"@),
            author: json::text_at(e.payload, "author"@),
            subject: json::text_at(e.payload, "subject"@),
            insertions: json::count_at(e.payload, "insertions"@) as nat,
            deletions: json::count_at(e.payload, "deletions"@) as nat,
        }
}

/// The names of the projects in which something happened.
pub open spec fn busy_names(events: Seq<EventModel>) -> Seq<Seq<char>> {
    order::distinct(events.filter(is_work()).map_values(project_of()))
}

/// The commits of a project, in the order of the events.
pub open spec fn commits_of(events: Seq<EventModel>, name: Seq<char>) -> Seq<CommitBriefModel> {
    events.filter(in_project(name, "commit"@)).map_values(brief_of())
}

/// The author of a commit.
pub open spec fn author_of() -> spec_fn(CommitBriefModel) -> Seq<char> {
    |c: CommitBriefModel| c.author
}

/// One for each commit.
pub open spec fn one() -> spec_fn(CommitBriefModel) -> nat {
    |c: CommitBriefModel| 1
}

/// The lines that a commit added.
pub open spec fn insertions_of() -> spec_fn(CommitBriefModel) -> nat {
    |c: CommitBriefModel| c.insertions
}

/// The lines that a commit removed.
pub open spec fn deletions_of() -> spec_fn(CommitBriefModel) -> nat {
    |c: CommitBriefModel| c.deletions
}

/// The last project of that name that is still there.
pub open spec fn project_named(projects: Seq<ProjectModel>, name: Seq<char>) -> Option<ProjectModel>
    decreases projects.len(),
{
    if projects.len() == 0 {
        None
    } else if projects.last().removed_at is None && projects.last().name == name {
        Some(projects.last())
    } else {
        project_named(projects.drop_last(), name)
    }
}

/// What happened in the project of that name, and how its working tree
/// stands.
pub open spec fn project_digest(
    events: Seq<EventModel>,
    projects: Seq<ProjectModel>,
    name: Seq<char>,
) -> ProjectDigestModel {
    let commits = commits_of(events, name);
    let project = project_named(projects, name);
    ProjectDigestModel {
        name,
        branch: match project {
            Some(p) => p.head_branch,
            None => None,
        },
        commits,
        authors: order::distinct(commits.map_values(author_of())),
        insertions: order::sum(commits, insertions_of()),
        deletions: order::sum(commits, deletions_of()),
        branches_created: events.filter(in_project(name, "branch_created"@)).map_values(
            field_of("branch"@),
        ),
        branches_deleted: events.filter(in_project(name, "branch_deleted"@)).map_values(
            field_of("branch"@),
        ),
        checkouts: events.filter(in_project(name, "checkout"@)).map_values(field_of("to"@)),
        uncommitted_files: match project {
            Some(p) => p.dirty_files,
            None => 0,
        },
    }
}

/// The digests of projects by their names.
pub open spec fn project_digest_for(
    events: Seq<EventModel>,
    projects: Seq<ProjectModel>,
) -> spec_fn(Seq<char>) -> ProjectDigestModel {
    |name: Seq<char>| project_digest(events, projects, name)
}

/// The project with more commits first, then by name.
pub open spec fn busiest_first() -> spec_fn(ProjectDigestModel, ProjectDigestModel) -> bool {
    |a: ProjectDigestModel, b: ProjectDigestModel|
        a.commits.len() > b.commits.len() || (a.commits.len() == b.commits.len() && text::precedes(
            a.name,
            b.name,
        ))
}

/// The digests of the projects in which something happened.
pub open spec fn project_digests(events: Seq<EventModel>, projects: Seq<ProjectModel>) -> Seq<
    ProjectDigestModel,
> {
    order::sorted(
        busy_names(events).map_values(project_digest_for(events, projects)),
        busiest_first(),
    )
}

/// The names of the projects that events are about.
pub open spec fn mentioned(events: Seq<EventModel>) -> Seq<Seq<char>> {
    events.map_values(project_of())
}

/// Projects with uncommitted work that no event is about.
pub open spec fn is_left_over(mentioned: Seq<Seq<char>>) -> spec_fn(ProjectModel) -> bool {
    |p: ProjectModel| p.removed_at is None && !mentioned.contains(p.name) && p.dirty_files > 0
}

/// The uncommitted work of a project.
pub open spec fn uncommitted_of() -> spec_fn(ProjectModel) -> UncommittedModel {
    |p: ProjectModel| UncommittedModel { name: p.name, files: p.dirty_files }
}

/// The commits of a project.
pub open spec fn commits_in() -> spec_fn(ProjectDigestModel) -> nat {
    |p: ProjectDigestModel| p.commits.len()
}

/// The lines added in a project.
pub open spec fn insertions_in() -> spec_fn(ProjectDigestModel) -> nat {
    |p: ProjectDigestModel| p.insertions
}

/// The lines removed in a project.
pub open spec fn deletions_in() -> spec_fn(ProjectDigestModel) -> nat {
    |p: ProjectDigestModel| p.deletions
}

/// The sums over all projects.
pub open spec fn totals_of(projects: Seq<ProjectDigestModel>) -> TotalsModel {
    TotalsModel {
        projects: projects.len(),
        commits: order::sum(projects, commits_in()),
        insertions: order::sum(projects, insertions_in()),
        deletions: order::sum(projects, deletions_in()),
    }
}

/// The digest of the events of a period, whose bounds are shown as the two
/// texts.
pub open spec fn digest_of(
    events: Seq<EventModel>,
    projects: Seq<ProjectModel>,
    period_from: Seq<char>,
    period_to: Seq<char>,
) -> DigestModel {
    let busy = project_digests(events, projects);
    DigestModel {
        period_from,
        period_to,
        totals: totals_of(busy),
        projects: busy,
        added_projects: events.filter(of_kind("project_added"@)).map_values(project_of()),
        removed_projects: events.filter(of_kind("project_removed"@)).map_values(project_of()),
        uncommitted_elsewhere: projects.filter(is_left_over(mentioned(events))).map_values(
            uncommitted_of(),
        ),
    }
}

/// All commits of the period.
pub open spec fn all_commits(events: Seq<EventModel>) -> Seq<CommitBriefModel> {
    events.filter(of_kind("commit"@)).map_values(brief_of())
}

/// Whether the sums over the period's commits can be held.
pub open spec fn sums_fit(events: Seq<EventModel>) -> bool {
    &&& order::sum(all_commits(events), insertions_of()) <= u64::MAX
    &&& order::sum(all_commits(events), deletions_of()) <= u64::MAX
}

// --- sums ----------------------------------------------------------------

/// The kinds of events differ.
proof fn lemma_kinds()
    ensures
        "commit"@ != "project_added"@,
        "commit"@ != "project_removed"@,
        "branch_created"@ != "project_added"@,
        "branch_created"@ != "project_removed"@,
        "branch_deleted"@ != "project_added"@,
        "branch_deleted"@ != "project_removed"@,
        "checkout"@ != "project_added"@,
        "checkout"@ != "project_removed"@,
        "project_added"@ != "project_removed"@,
        "commit"@ != "branch_created"@,
        "commit"@ != "branch_deleted"@,
        "commit"@ != "checkout"@,
        "branch_created"@ != "branch_deleted"@,
        "branch_created"@ != "checkout"@,
        "branch_deleted"@ != "checkout"@,
{
    reveal_strlit("commit");
    reveal_strlit("checkout");
    reveal_strlit("branch_created");
    reveal_strlit("branch_deleted");
    reveal_strlit("project_added");
    reveal_strlit("project_removed");
    assert("commit"@.len() == 6 && "checkout"@.len() == 8);
    assert("branch_created"@.len() == 14 && "branch_deleted"@.len() == 14);
    assert("project_added"@.len() == 13 && "project_removed"@.len() == 15);
    assert("branch_created"@[7] == 'c');
    assert("branch_deleted"@[7] == 'd');
}

/// A project without work has no commits.
proof fn lemma_idle(events: Seq<EventModel>, name: Seq<char>)
    requires
        !busy_names(events).contains(name),
    ensures
        commits_of(events, name) == Seq::<CommitBriefModel>::empty(),
{
    let found = events.filter(in_project(name, "commit"@));
    let work = events.filter(is_work());
    lemma_kinds();
    order::lemma_filter_contains(events, in_project(name, "commit"@));
    order::lemma_filter_contains(events, is_work());
    order::lemma_distinct(work.map_values(project_of()));
    if found.len() > 0 {
        let e = found[0];
        assert(found.contains(e));
        assert(work.contains(e));
        let k = choose|k: int| 0 <= k < work.len() && work[k] == e;
        assert(work.map_values(project_of())[k] == name);
        assert(work.map_values(project_of()).contains(name));
        assert(false);
    }
    assert(commits_of(events, name) =~= Seq::<CommitBriefModel>::empty());
}

/// The weight of a project's commits.
pub open spec fn weight_in(events: Seq<EventModel>, unit: spec_fn(CommitBriefModel) -> nat) -> spec_fn(
    Seq<char>,
) -> nat {
    |name: Seq<char>| order::sum(commits_of(events, name), unit)
}

/// Every commit of the period belongs to exactly one of the projects in which
/// something happened: what the commits weigh together is what the projects'
/// commits weigh together.
pub proof fn every_commit_is_counted_once(
    events: Seq<EventModel>,
    unit: spec_fn(CommitBriefModel) -> nat,
)
    ensures
        order::sum(busy_names(events), weight_in(events, unit)) == order::sum(
            all_commits(events),
            unit,
        ),
    decreases events.len(),
{
    reveal(Seq::filter);
    if events.len() > 0 {
        let t = events.drop_last();
        let e = events.last();
        every_commit_is_counted_once(t, unit);
        lemma_kinds();
        let w = weight_in(t, unit);
        let v = weight_in(events, unit);
        let names = busy_names(t);
        let d: nat = if e.kind == "commit"@ {
            unit((brief_of())(e))
        } else {
            0
        };
        order::lemma_distinct(t.filter(is_work()).map_values(project_of()));
        assert forall|name: Seq<char>| #[trigger] v(name) == w(name) + (if name == e.project {
            d
        } else {
            0
        }) by {
            if e.kind == "commit"@ && name == e.project {
                assert(commits_of(events, name) =~= commits_of(t, name).push((brief_of())(e)));
                order::lemma_sum_push(commits_of(t, name), (brief_of())(e), unit);
            }
        }
        if e.kind == "commit"@ {
            assert(all_commits(events) =~= all_commits(t).push((brief_of())(e)));
            order::lemma_sum_push(all_commits(t), (brief_of())(e), unit);
        }
        if (is_work())(e) {
            let work = t.filter(is_work()).map_values(project_of());
            let more = events.filter(is_work()).map_values(project_of());
            assert(more =~= work.push(e.project));
            assert(more.drop_last() =~= work);
            if names.contains(e.project) {
                let k = choose|k: int| 0 <= k < names.len() && names[k] == e.project;
                order::lemma_sum_change(names, w, v, k, d);
            } else {
                lemma_idle(t, e.project);
                order::lemma_sum_same(names, w, v);
                order::lemma_sum_push(names, e.project, v);
            }
        } else {
            order::lemma_sum_same(names, w, v);
        }
    }
}

/// The totals of a digest are the number of the period's commits and the
/// lines that they added and removed.
pub proof fn totals_count_every_commit(events: Seq<EventModel>, projects: Seq<ProjectModel>)
    ensures
        totals_of(project_digests(events, projects)) == (TotalsModel {
            projects: busy_names(events).len(),
            commits: all_commits(events).len(),
            insertions: order::sum(all_commits(events), insertions_of()),
            deletions: order::sum(all_commits(events), deletions_of()),
        }),
{
    let names = busy_names(events);
    let digests = names.map_values(project_digest_for(events, projects));
    order::sorted_is_permutation(digests, busiest_first());
    order::lemma_sum_sorted(digests, busiest_first(), commits_in());
    order::lemma_sum_sorted(digests, busiest_first(), insertions_in());
    order::lemma_sum_sorted(digests, busiest_first(), deletions_in());
    order::lemma_sum_map(names, project_digest_for(events, projects), commits_in());
    order::lemma_sum_map(names, project_digest_for(events, projects), insertions_in());
    order::lemma_sum_map(names, project_digest_for(events, projects), deletions_in());
    every_commit_is_counted_once(events, one());
    every_commit_is_counted_once(events, insertions_of());
    every_commit_is_counted_once(events, deletions_of());
    lemma_count(all_commits(events));
    assert forall|i: int| 0 <= i < names.len() implies (weight_in(events, one()))(
        #[trigger] names[i],
    ) == (commits_in())(project_digest(events, projects, names[i])) by {
        lemma_count(commits_of(events, names[i]));
    }
    order::lemma_sum_same(
        names,
        weight_in(events, one()),
        |name: Seq<char>| (commits_in())((project_digest_for(events, projects))(name)),
    );
    order::lemma_sum_same(
        names,
        weight_in(events, insertions_of()),
        |name: Seq<char>| (insertions_in())((project_digest_for(events, projects))(name)),
    );
    order::lemma_sum_same(
        names,
        weight_in(events, deletions_of()),
        |name: Seq<char>| (deletions_in())((project_digest_for(events, projects))(name)),
    );
}

proof fn lemma_count(commits: Seq<CommitBriefModel>)
    ensures
        order::sum(commits, one()) == commits.len(),
    decreases commits.len(),
{
    if commits.len() > 0 {
        lemma_count(commits.drop_last());
    }
}

/// The commits of one project weigh no more than all.
proof fn lemma_share(
    events: Seq<EventModel>,
    name: Seq<char>,
    unit: spec_fn(CommitBriefModel) -> nat,
)
    ensures
        order::sum(commits_of(events, name), unit) <= order::sum(all_commits(events), unit),
    decreases events.len(),
{
    reveal(Seq::filter);
    if events.len() > 0 {
        let t = events.drop_last();
        let e = events.last();
        lemma_share(t, name, unit);
        if e.kind == "commit"@ {
            assert(all_commits(events) =~= all_commits(t).push((brief_of())(e)));
            order::lemma_sum_push(all_commits(t), (brief_of())(e), unit);
            if e.project == name {
                assert(commits_of(events, name) =~= commits_of(t, name).push((brief_of())(e)));
                order::lemma_sum_push(commits_of(t, name), (brief_of())(e), unit);
            }
        }
    }
}

// --- gathering -----------------------------------------------------------

/// The names of the projects in which something happened, each once.
fn busy(events: &[EventRow]) -> (r: Vec<String>)
    ensures
        text::texts(r@) == busy_names(order::views(events@)),
{
    let ghost all = order::views(events@);
    let mut r: Vec<String> = Vec::new();
    let mut i: usize = 0;
    proof {
        order::lemma_filter_none(all, is_work());
        assert(text::texts(r@) =~= busy_names(all.take(0)));
    }
    while i < events.len()
        invariant
            i <= events.len(),
            all == order::views(events@),
            text::texts(r@) == busy_names(all.take(i as int)),
        decreases events.len() - i,
    {
        let e = &events[i];
        let ghost done = text::texts(r@);
        proof {
            order::lemma_filter_step(all, i as int, is_work());
        }
        if !text::same(e.kind.as_str(), "project_added") && !text::same(
            e.kind.as_str(),
            "project_removed",
        ) {
            proof {
                let before = all.take(i as int).filter(is_work()).map_values(project_of());
                let after = all.take(i + 1).filter(is_work()).map_values(project_of());
                assert(after =~= before.push(e.project@));
                assert(after.drop_last() =~= before);
            }
            if !text::has(&r, e.project.as_str()) {
                r.push(e.project.clone());
                assert(text::texts(r@) =~= done.push(e.project@));
            }
        }
        i += 1;
    }
    assert(all.take(i as int) =~= all);
    r
}

/// The commit that a payload describes.
fn brief(event: &EventRow) -> (r: CommitBrief)
    ensures
        r@ == (brief_of())(event@),
{
    let payload = &event.payload;
    let sha = json::text_field(payload, "sha");
    CommitBrief {
        sha: text::shortened(sha.as_str(), 7),
        branch: json::text_field(payload, "branch"),
        author: json::text_field(payload, "author"),
        subject: json::text_field(payload, "subject"),
        insertions: json::count_field(payload, "insertions"),
        deletions: json::count_field(payload, "deletions"),
    }
}

/// The field of every event of a kind in a project.
fn fields(events: &[EventRow], name: &str, kind: &str, key: &str) -> (r: Vec<String>)
    ensures
        text::texts(r@) == order::views(events@).filter(in_project(name@, kind@)).map_values(
            field_of(key@),
        ),
{
    let ghost all = order::views(events@);
    let ghost p = in_project(name@, kind@);
    let mut r: Vec<String> = Vec::new();
    let mut i: usize = 0;
    proof {
        order::lemma_filter_none(all, p);
        assert(text::texts(r@) =~= all.take(0).filter(p).map_values(field_of(key@)));
    }
    while i < events.len()
        invariant
            i <= events.len(),
            all == order::views(events@),
            p == in_project(name@, kind@),
            text::texts(r@) == all.take(i as int).filter(p).map_values(field_of(key@)),
        decreases events.len() - i,
    {
        let e = &events[i];
        let ghost done = text::texts(r@);
        proof {
            order::lemma_filter_step(all, i as int, p);
        }
        if text::same(e.kind.as_str(), kind) && text::same(e.project.as_str(), name) {
            let found = json::text_field(&e.payload, key);
            r.push(found);
            assert(text::texts(r@) =~= done.push(found@));
            assert(text::texts(r@) =~= all.take(i + 1).filter(p).map_values(field_of(key@)));
        }
        i += 1;
    }
    assert(all.take(i as int) =~= all);
    r
}

/// The projects of every event of a kind.
fn projects_of(events: &[EventRow], kind: &str) -> (r: Vec<String>)
    ensures
        text::texts(r@) == order::views(events@).filter(of_kind(kind@)).map_values(project_of()),
{
    let ghost all = order::views(events@);
    let ghost p = of_kind(kind@);
    let mut r: Vec<String> = Vec::new();
    let mut i: usize = 0;
    proof {
        order::lemma_filter_none(all, p);
        assert(text::texts(r@) =~= all.take(0).filter(p).map_values(project_of()));
    }
    while i < events.len()
        invariant
            i <= events.len(),
            all == order::views(events@),
            p == of_kind(kind@),
            text::texts(r@) == all.take(i as int).filter(p).map_values(project_of()),
        decreases events.len() - i,
    {
        let e = &events[i];
        let ghost done = text::texts(r@);
        proof {
            order::lemma_filter_step(all, i as int, p);
        }
        if text::same(e.kind.as_str(), kind) {
            r.push(e.project.clone());
            assert(text::texts(r@) =~= done.push(e.project@));
            assert(text::texts(r@) =~= all.take(i + 1).filter(p).map_values(project_of()));
        }
        i += 1;
    }
    assert(all.take(i as int) =~= all);
    r
}

/// The commits of a project.
fn commits(events: &[EventRow], name: &str) -> (r: Vec<CommitBrief>)
    ensures
        order::views(r@) == commits_of(order::views(events@), name@),
{
    let ghost all = order::views(events@);
    let ghost p = in_project(name@, "commit"@);
    let mut r: Vec<CommitBrief> = Vec::new();
    let mut i: usize = 0;
    proof {
        order::lemma_filter_none(all, p);
        assert(order::views(r@) =~= all.take(0).filter(p).map_values(brief_of()));
    }
    while i < events.len()
        invariant
            i <= events.len(),
            all == order::views(events@),
            p == in_project(name@, "commit"@),
            order::views(r@) == all.take(i as int).filter(p).map_values(brief_of()),
        decreases events.len() - i,
    {
        let e = &events[i];
        let ghost done = order::views(r@);
        proof {
            order::lemma_filter_step(all, i as int, p);
        }
        if text::same(e.kind.as_str(), "commit") && text::same(e.project.as_str(), name) {
            let commit = brief(e);
            r.push(commit);
            assert(order::views(r@) =~= done.push(commit@));
            assert(order::views(r@) =~= all.take(i + 1).filter(p).map_values(brief_of()));
        }
        i += 1;
    }
    assert(all.take(i as int) =~= all);
    r
}

/// The authors of commits, each once, in order.
fn authors(commits: &Vec<CommitBrief>) -> (r: Vec<String>)
    ensures
        text::texts(r@) == order::distinct(order::views(commits@).map_values(author_of())),
{
    let ghost all = order::views(commits@).map_values(author_of());
    let mut r: Vec<String> = Vec::new();
    let mut i: usize = 0;
    assert(text::texts(r@) =~= order::distinct(all.take(0)));
    while i < commits.len()
        invariant
            i <= commits.len(),
            all == order::views(commits@).map_values(author_of()),
            text::texts(r@) == order::distinct(all.take(i as int)),
        decreases commits.len() - i,
    {
        let ghost done = text::texts(r@);
        assert(all.take(i + 1).drop_last() =~= all.take(i as int));
        assert(all.take(i + 1).last() == commits@[i as int].author@);
        if !text::has(&r, commits[i].author.as_str()) {
            r.push(commits[i].author.clone());
            assert(text::texts(r@) =~= done.push(commits@[i as int].author@));
        }
        i += 1;
    }
    assert(all.take(i as int) =~= all);
    r
}

/// The lines that commits added and removed.
fn lines(commits: &Vec<CommitBrief>) -> (r: (u64, u64))
    requires
        order::sum(order::views(commits@), insertions_of()) <= u64::MAX,
        order::sum(order::views(commits@), deletions_of()) <= u64::MAX,
    ensures
        r.0 == order::sum(order::views(commits@), insertions_of()),
        r.1 == order::sum(order::views(commits@), deletions_of()),
{
    let ghost all = order::views(commits@);
    let mut insertions: u64 = 0;
    let mut deletions: u64 = 0;
    let mut i: usize = 0;
    while i < commits.len()
        invariant
            i <= commits.len(),
            all == order::views(commits@),
            order::sum(all, insertions_of()) <= u64::MAX,
            order::sum(all, deletions_of()) <= u64::MAX,
            insertions == order::sum(all.take(i as int), insertions_of()),
            deletions == order::sum(all.take(i as int), deletions_of()),
        decreases commits.len() - i,
    {
        proof {
            order::lemma_sum_take(all, insertions_of(), i as int);
            order::lemma_sum_take(all, deletions_of(), i as int);
            order::lemma_sum_take(all, insertions_of(), i + 1);
            order::lemma_sum_take(all, deletions_of(), i + 1);
            assert(all[i as int] == commits@[i as int]@);
        }
        insertions += commits[i].insertions;
        deletions += commits[i].deletions;
        i += 1;
    }
    assert(all.take(i as int) =~= all);
    (insertions, deletions)
}

/// The last project of that name that is still there.
fn named<'a>(projects: &'a [ProjectRow], name: &str) -> (r: Option<&'a ProjectRow>)
    ensures
        r is Some <==> project_named(order::views(projects@), name@) is Some,
        r matches Some(p) ==> project_named(order::views(projects@), name@) == Some(p@),
{
    let ghost all = order::views(projects@);
    let mut r: Option<&ProjectRow> = None;
    let mut i: usize = 0;
    while i < projects.len()
        invariant
            i <= projects.len(),
            all == order::views(projects@),
            r is Some <==> project_named(all.take(i as int), name@) is Some,
            r matches Some(p) ==> project_named(all.take(i as int), name@) == Some(p@),
        decreases projects.len() - i,
    {
        assert(all.take(i + 1).drop_last() =~= all.take(i as int));
        assert(all.take(i + 1).last() == projects@[i as int]@);
        let p = &projects[i];
        if p.removed_at.is_none() && text::same(p.name.as_str(), name) {
            r = Some(p);
        }
        i += 1;
    }
    assert(all.take(i as int) =~= all);
    r
}

/// What happened in the project of that name, and how its working tree
/// stands.
fn gather_project(events: &[EventRow], projects: &[ProjectRow], name: &str) -> (r: ProjectDigest)
    requires
        sums_fit(order::views(events@)),
    ensures
        r@ == project_digest(order::views(events@), order::views(projects@), name@),
{
    let commits = commits(events, name);
    proof {
        lemma_share(order::views(events@), name@, insertions_of());
        lemma_share(order::views(events@), name@, deletions_of());
    }
    let (insertions, deletions) = lines(&commits);
    let authors = authors(&commits);
    let (branch, uncommitted_files) = match named(projects, name) {
        Some(p) => (text::copy_opt(&p.head_branch), p.dirty_files),
        None => (None, 0),
    };
    ProjectDigest {
        name: name.to_owned(),
        branch,
        commits,
        authors,
        insertions,
        deletions,
        branches_created: fields(events, name, "branch_created", "branch"),
        branches_deleted: fields(events, name, "branch_deleted", "branch"),
        checkouts: fields(events, name, "checkout", "to"),
        uncommitted_files,
    }
}

/// Whether one of the events is about the project of that name.
fn is_mentioned(events: &[EventRow], name: &str) -> (r: bool)
    ensures
        r == mentioned(order::views(events@)).contains(name@),
{
    let ghost names = mentioned(order::views(events@));
    let mut i: usize = 0;
    while i < events.len()
        invariant
            i <= events.len(),
            names == mentioned(order::views(events@)),
            forall|j: int| 0 <= j < i ==> #[trigger] names[j] != name@,
        decreases events.len() - i,
    {
        assert(names[i as int] == events@[i as int].project@);
        if text::same(events[i].project.as_str(), name) {
            return true;
        }
        i += 1;
    }
    false
}

/// The projects with uncommitted work that no event is about.
fn left_over(projects: &[ProjectRow], events: &[EventRow]) -> (r: Vec<Uncommitted>)
    ensures
        order::views(r@) == order::views(projects@).filter(
            is_left_over(mentioned(order::views(events@))),
        ).map_values(uncommitted_of()),
{
    let ghost all = order::views(projects@);
    let ghost p = is_left_over(mentioned(order::views(events@)));
    let mut r: Vec<Uncommitted> = Vec::new();
    let mut i: usize = 0;
    proof {
        order::lemma_filter_none(all, p);
        assert(order::views(r@) =~= all.take(0).filter(p).map_values(uncommitted_of()));
    }
    while i < projects.len()
        invariant
            i <= projects.len(),
            all == order::views(projects@),
            p == is_left_over(mentioned(order::views(events@))),
            order::views(r@) == all.take(i as int).filter(p).map_values(uncommitted_of()),
        decreases projects.len() - i,
    {
        let project = &projects[i];
        let ghost done = order::views(r@);
        proof {
            order::lemma_filter_step(all, i as int, p);
        }
        if project.removed_at.is_none() && project.dirty_files > 0 && !is_mentioned(
            events,
            project.name.as_str(),
        ) {
            let left = Uncommitted { name: project.name.clone(), files: project.dirty_files };
            r.push(left);
            assert(order::views(r@) =~= done.push(left@));
            assert(order::views(r@) =~= all.take(i + 1).filter(p).map_values(uncommitted_of()));
        }
        i += 1;
    }
    assert(all.take(i as int) =~= all);
    r
}

/// The sums over all projects.
fn add_up(projects: &Vec<ProjectDigest>) -> (r: Totals)
    requires
        totals_of(order::views(projects@)).commits <= usize::MAX,
        totals_of(order::views(projects@)).insertions <= u64::MAX,
        totals_of(order::views(projects@)).deletions <= u64::MAX,
    ensures
        r@ == totals_of(order::views(projects@)),
{
    let ghost all = order::views(projects@);
    let mut commits: usize = 0;
    let mut insertions: u64 = 0;
    let mut deletions: u64 = 0;
    let mut i: usize = 0;
    while i < projects.len()
        invariant
            i <= projects.len(),
            all == order::views(projects@),
            order::sum(all, commits_in()) <= usize::MAX,
            order::sum(all, insertions_in()) <= u64::MAX,
            order::sum(all, deletions_in()) <= u64::MAX,
            commits == order::sum(all.take(i as int), commits_in()),
            insertions == order::sum(all.take(i as int), insertions_in()),
            deletions == order::sum(all.take(i as int), deletions_in()),
        decreases projects.len() - i,
    {
        proof {
            order::lemma_sum_take(all, commits_in(), i as int);
            order::lemma_sum_take(all, insertions_in(), i as int);
            order::lemma_sum_take(all, deletions_in(), i as int);
            order::lemma_sum_take(all, commits_in(), i + 1);
            order::lemma_sum_take(all, insertions_in(), i + 1);
            order::lemma_sum_take(all, deletions_in(), i + 1);
            assert(all[i as int] == projects@[i as int]@);
            assert(all[i as int].commits.len() == projects@[i as int].commits@.len());
        }
        commits += projects[i].commits.len();
        insertions += projects[i].insertions;
        deletions += projects[i].deletions;
        i += 1;
    }
    assert(all.take(i as int) =~= all);
    Totals { projects: projects.len(), commits, insertions, deletions }
}

/// Groups the events of a period, whose bounds are shown as the two texts.
pub fn gather(
    events: &[EventRow],
    projects: &[ProjectRow],
    period_from: String,
    period_to: String,
) -> (r: Digest)
    requires
        sums_fit(order::views(events@)),
    ensures
        r@ == digest_of(
            order::views(events@),
            order::views(projects@),
            period_from@,
            period_to@,
        ),
{
    let ghost all = order::views(events@);
    let ghost rows = order::views(projects@);
    let names = busy(events);
    let mut found: Vec<ProjectDigest> = Vec::new();
    let ghost wanted = busy_names(all).map_values(project_digest_for(all, rows));
    let mut i: usize = 0;
    assert(order::views(found@) =~= wanted.take(0));
    while i < names.len()
        invariant
            i <= names.len(),
            all == order::views(events@),
            rows == order::views(projects@),
            sums_fit(all),
            text::texts(names@) == busy_names(all),
            wanted == busy_names(all).map_values(project_digest_for(all, rows)),
            order::views(found@) == wanted.take(i as int),
        decreases names.len() - i,
    {
        let ghost done = order::views(found@);
        let entry = gather_project(events, projects, names[i].as_str());
        found.push(entry);
        assert(text::texts(names@)[i as int] == names@[i as int]@);
        assert(entry@ == wanted[i as int]);
        assert(order::views(found@) =~= done.push(entry@));
        assert(wanted.take(i + 1) =~= wanted.take(i as int).push(wanted[i as int]));
        i += 1;
    }
    assert(text::texts(names@).len() == names@.len());
    assert(wanted.take(i as int) =~= wanted);
    let before = |a: &ProjectDigest, b: &ProjectDigest| -> (r: bool)
        ensures r == (busiest_first())(a@, b@)
    {
        assert(a@.commits.len() == a.commits@.len() && b@.commits.len() == b.commits@.len());
        a.commits.len() > b.commits.len() || (a.commits.len() == b.commits.len() && text::before(
            a.name.as_str(),
            b.name.as_str(),
        ))
    };
    let sorted = order::sort(found, before, Ghost(busiest_first()));
    proof {
        totals_count_every_commit(all, rows);
        all.lemma_filter_len(of_kind("commit"@));
        assert(all.len() == events.len());
    }
    let totals = add_up(&sorted);
    let r = Digest {
        period_from,
        period_to,
        totals,
        projects: sorted,
        added_projects: projects_of(events, "project_added"),
        removed_projects: projects_of(events, "project_removed"),
        uncommitted_elsewhere: left_over(projects, events),
    };
    r
}

/// Groups the events of a period. No events give an empty digest.
pub fn summarize(events: &[EventRow], projects: &[ProjectRow], from: i64, to: i64) -> (r: Digest)
    requires
        sums_fit(order::views(events@)),
        time::clear_of_edges(from),
        time::clear_of_edges(to),
    ensures
        time::is_rfc3339(r.period_from@, from),
        time::is_rfc3339(r.period_to@, to),
        r@ == digest_of(
            order::views(events@),
            order::views(projects@),
            r.period_from@,
            r.period_to@,
        ),
{
    let period_from = time::rfc3339(from);
    let period_to = time::rfc3339(to);
    gather(events, projects, period_from, period_to)
}

/// Whether the sums over the period's commits can be held.
pub fn can_sum(events: &[EventRow]) -> (r: bool)
    ensures
        r == sums_fit(order::views(events@)),
{
    let ghost all = order::views(events@);
    let ghost p = of_kind("commit"@);
    let mut insertions: u64 = 0;
    let mut deletions: u64 = 0;
    let mut i: usize = 0;
    proof {
        order::lemma_filter_none(all, p);
        assert(all_commits(all.take(0)) =~= Seq::<CommitBriefModel>::empty());
    }
    while i < events.len()
        invariant
            i <= events.len(),
            all == order::views(events@),
            p == of_kind("commit"@),
            insertions == order::sum(all_commits(all.take(i as int)), insertions_of()),
            deletions == order::sum(all_commits(all.take(i as int)), deletions_of()),
        decreases events.len() - i,
    {
        let e = &events[i];
        proof {
            order::lemma_filter_step(all, i as int, p);
        }
        if text::same(e.kind.as_str(), "commit") {
            let commit = brief(e);
            let ghost before = all_commits(all.take(i as int));
            proof {
                assert(all_commits(all.take(i + 1)) =~= before.push(commit@));
                order::lemma_sum_push(before, commit@, insertions_of());
                order::lemma_sum_push(before, commit@, deletions_of());
                lemma_front(all, i + 1, insertions_of());
                lemma_front(all, i + 1, deletions_of());
            }
            match (
                insertions.checked_add(commit.insertions),
                deletions.checked_add(commit.deletions),
            ) {
                (Some(a), Some(d)) => {
                    insertions = a;
                    deletions = d;
                },
                _ => {
                    return false;
                },
            }
        }
        i += 1;
    }
    assert(all.take(i as int) =~= all);
    true
}

/// The commits of the first events weigh no more than all.
proof fn lemma_front(events: Seq<EventModel>, i: int, unit: spec_fn(CommitBriefModel) -> nat)
    requires
        0 <= i <= events.len(),
    ensures
        order::sum(all_commits(events.take(i)), unit) <= order::sum(all_commits(events), unit),
    decreases events.len() - i,
{
    if i < events.len() {
        lemma_front(events, i + 1, unit);
        order::lemma_filter_step(events, i, of_kind("commit"@));
        if events[i].kind == "commit"@ {
            let before = all_commits(events.take(i));
            assert(all_commits(events.take(i + 1)) =~= before.push((brief_of())(events[i])));
            order::lemma_sum_push(before, (brief_of())(events[i]), unit);
        }
    } else {
        assert(events.take(i) =~= events);
    }
}

/// The digest of a period where the sums can be held and both bounds can be
/// shown.
pub open spec fn summary_of(
    events: Seq<EventModel>,
    projects: Seq<ProjectModel>,
    from: Option<Seq<char>>,
    to: Option<Seq<char>>,
) -> Option<DigestModel> {
    match (from, to) {
        (Some(from), Some(to)) => if sums_fit(events) {
            Some(digest_of(events, projects, from, to))
        } else {
            None
        },
        _ => None,
    }
}

/// What an optional digest holds.
pub open spec fn digest_opt(digest: Option<Digest>) -> Option<DigestModel> {
    match digest {
        Some(d) => Some(d@),
        None => None,
    }
}

/// Groups the events of a period where the sums can be held and the local
/// calendar has its bounds.
pub fn try_summarize(events: &[EventRow], projects: &[ProjectRow], from: i64, to: i64) -> (r: Option<
    Digest,
>)
    ensures
        exists|period_from: Option<Seq<char>>, period_to: Option<Seq<char>>|
            #[trigger] time::is_stamp(period_from, from) && #[trigger] time::is_stamp(period_to, to)
                && digest_opt(r) == summary_of(
                order::views(events@),
                order::views(projects@),
                period_from,
                period_to,
            ),
        sums_fit(order::views(events@)) && time::clear_of_edges(from) && time::clear_of_edges(to)
            ==> r is Some,
{
    let period_from = time::try_rfc3339(from);
    let period_to = time::try_rfc3339(to);
    assert(time::is_stamp(text::text_opt(period_from), from));
    assert(time::is_stamp(text::text_opt(period_to), to));
    match (period_from, period_to) {
        (Some(period_from), Some(period_to)) => if can_sum(events) {
            Some(gather(events, projects, period_from, period_to))
        } else {
            None
        },
        _ => None,
    }
}

// --- the text ------------------------------------------------------------

/// The form of a noun that goes with a number in Russian.
pub open spec fn agreeing(n: nat, one: Seq<char>, few: Seq<char>, many: Seq<char>) -> Seq<char> {
    if n % 10 == 1 && n % 100 != 11 {
        one
    } else if 2 <= n % 10 <= 4 && !(12 <= n % 100 <= 14) {
        few
    } else {
        many
    }
}

/// A number with its noun.
pub open spec fn counted(n: nat, one: Seq<char>, few: Seq<char>, many: Seq<char>) -> Seq<char> {
    text::decimal(n) + " "@ + agreeing(n, one, few, many)
}

/// A number with its noun, in agreement: 1 коммит, 2 коммита, 5 коммитов.
pub fn plural(n: u64, one: &str, few: &str, many: &str) -> (r: String)
    ensures
        r@ == counted(n as nat, one@, few@, many@),
{
    let tens = n % 100;
    let ones = n % 10;
    let word = if ones == 1 && tens != 11 {
        one
    } else if 2 <= ones && ones <= 4 && !(12 <= tens && tens <= 14) {
        few
    } else {
        many
    };
    let number = text::u64_text(n);
    text::concat3(number.as_str(), " ", word)
}

/// A number of commits.
pub open spec fn commits_text(n: nat) -> Seq<char> {
    counted(n, "коммит"@, "коммита"@, "коммитов"@)
}

/// A number of files; none where it is negative.
pub open spec fn files_text(n: int) -> Seq<char> {
    let n: nat = if n < 0 {
        0
    } else {
        n as nat
    };
    counted(n, "файл"@, "файла"@, "файлов"@)
}

/// A number of commits.
pub fn commits_word(n: usize) -> (r: String)
    ensures
        r@ == commits_text(n as nat),
{
    plural(n as u64, "коммит", "коммита", "коммитов")
}

/// A number of files; none where it is negative.
pub fn files_word(n: i64) -> (r: String)
    ensures
        r@ == files_text(n as int),
{
    let n: u64 = if n < 0 {
        0
    } else {
        n as u64
    };
    plural(n, "файл", "файла", "файлов")
}

/// The line of a commit.
pub open spec fn commit_line() -> spec_fn(CommitBriefModel) -> Seq<char> {
    |c: CommitBriefModel| "  - `"@ + c.sha + "` "@ + c.subject + " ["@ + c.branch + "]\n"@
}

/// The commits that a text lists: the latest ones, latest first.
pub open spec fn listed(commits: Seq<CommitBriefModel>) -> Seq<CommitBriefModel> {
    order::first(commits.reverse(), MAX_COMMITS_IN_TEXT as int)
}

/// The lines about a project's commits.
pub open spec fn commits_section(p: ProjectDigestModel) -> Seq<char> {
    if p.commits.len() == 0 {
        seq![]
    } else {
        let rest: int = p.commits.len() - MAX_COMMITS_IN_TEXT;
        "- "@ + commits_text(p.commits.len()) + ", +"@ + text::decimal(p.insertions) + " −"@
            + text::decimal(p.deletions) + "; авторы: "@ + text::joined(p.authors, ", "@) + "\n"@
            + text::run_together(listed(p.commits).map_values(commit_line())) + (if rest > 0 {
            "  - …и ещё "@ + text::decimal(rest as nat) + "\n"@
        } else {
            seq![]
        })
    }
}

/// A line with a list; none where there is nothing to list.
pub open spec fn list_line(title: Seq<char>, list: Seq<Seq<char>>, sep: Seq<char>) -> Seq<char> {
    if list.len() == 0 {
        seq![]
    } else {
        title + text::joined(list, sep) + "\n"@
    }
}

/// The section of a project.
pub open spec fn project_section() -> spec_fn(ProjectDigestModel) -> Seq<char> {
    |p: ProjectDigestModel|
        "\n### "@ + p.name + (match p.branch {
            Some(b) => " ("@ + b + ")"@,
            None => seq![],
        }) + "\n"@ + commits_section(p) + list_line(
            "- новые ветки: "@,
            p.branches_created,
            ", "@,
        ) + list_line("- удалены ветки: "@, p.branches_deleted, ", "@) + list_line(
            "- переключения на: "@,
            p.checkouts,
            " → "@,
        ) + (if p.uncommitted_files > 0 {
            "- незакоммичено: "@ + files_text(p.uncommitted_files) + "\n"@
        } else {
            seq![]
        })
}

/// The line of totals.
pub open spec fn totals_line(t: TotalsModel) -> Seq<char> {
    if t.projects > 0 {
        counted(t.projects, "проект"@, "проекта"@, "проектов"@) + ", "@ + commits_text(t.commits)
            + ", +"@ + text::decimal(t.insertions) + " −"@ + text::decimal(t.deletions) + "\n"@
    } else {
        seq![]
    }
}

/// Uncommitted work in a list.
pub open spec fn uncommitted_text() -> spec_fn(UncommittedModel) -> Seq<char> {
    |u: UncommittedModel| u.name + " ("@ + files_text(u.files) + ")"@
}

/// The text of a digest, in Markdown, for a period whose bounds are shown as
/// the two texts.
pub open spec fn digest_text(d: DigestModel, from: Seq<char>, to: Seq<char>) -> Seq<char> {
    "## Активность "@ + from + " — "@ + to + "\n\n"@ + totals_line(d.totals) + text::run_together(
        d.projects.map_values(project_section()),
    ) + list_line("\nНовые проекты: "@, d.added_projects, ", "@) + list_line(
        "\nПропавшие проекты: "@,
        d.removed_projects,
        ", "@,
    ) + list_line(
        "\nНезакоммичено без новых событий: "@,
        d.uncommitted_elsewhere.map_values(uncommitted_text()),
        ", "@,
    )
}

/// The line of a commit.
fn render_commit(commit: &CommitBrief) -> (r: String)
    ensures
        r@ == (commit_line())(commit@),
{
    let mut out = "  - `".to_owned();
    out.append(commit.sha.as_str());
    out.append("` ");
    out.append(commit.subject.as_str());
    out.append(" [");
    out.append(commit.branch.as_str());
    out.append("]\n");
    out
}

/// The lines of the commits that a text lists.
fn render_listed(commits: &Vec<CommitBrief>) -> (r: String)
    ensures
        r@ == text::run_together(listed(order::views(commits@)).map_values(commit_line())),
{
    let ghost all = order::views(commits@);
    let ghost lines = listed(all).map_values(commit_line());
    let mut out = String::new();
    let mut i: usize = 0;
    assert(out@ =~= text::run_together(lines.take(0)));
    while i < commits.len() && i < MAX_COMMITS_IN_TEXT
        invariant
            i <= commits.len(),
            i <= MAX_COMMITS_IN_TEXT,
            all == order::views(commits@),
            lines == listed(all).map_values(commit_line()),
            out@ == text::run_together(lines.take(i as int)),
        decreases commits.len() - i,
    {
        let commit = &commits[commits.len() - 1 - i];
        let line = render_commit(commit);
        assert(listed(all)[i as int] == commit@);
        assert(lines.take(i + 1).drop_last() =~= lines.take(i as int));
        assert(lines.take(i + 1).last() == line@);
        out.append(line.as_str());
        i += 1;
    }
    assert(lines.take(i as int) =~= lines);
    out
}

/// The lines about a project's commits.
fn render_commits(project: &ProjectDigest) -> (r: String)
    ensures
        r@ == commits_section(project@),
{
    assert(project@.commits.len() == project.commits@.len());
    let mut out = String::new();
    let count = project.commits.len();
    if count > 0 {
        out = "- ".to_owned();
        let word = commits_word(count);
        out.append(word.as_str());
        out.append(", +");
        text::push_u64(&mut out, project.insertions);
        out.append(" −");
        text::push_u64(&mut out, project.deletions);
        out.append("; авторы: ");
        let names = text::join(&project.authors, ", ");
        out.append(names.as_str());
        out.append("\n");
        let lines = render_listed(&project.commits);
        out.append(lines.as_str());
        let mut rest = String::new();
        if count > MAX_COMMITS_IN_TEXT {
            rest = "  - …и ещё ".to_owned();
            text::push_u64(&mut rest, (count - MAX_COMMITS_IN_TEXT) as u64);
            rest.append("\n");
        } else {
            assert(rest@ =~= seq![]);
        }
        out.append(rest.as_str());
    } else {
        assert(out@ =~= seq![]);
    }
    out
}

/// A line with a list; none where there is nothing to list.
fn render_list(title: &str, list: &Vec<String>, sep: &str) -> (r: String)
    ensures
        r@ == list_line(title@, text::texts(list@), sep@),
{
    assert(text::texts(list@).len() == list@.len());
    if list.len() == 0 {
        let none = String::new();
        assert(none@ =~= seq![]);
        none
    } else {
        let names = text::join(list, sep);
        text::concat3(title, names.as_str(), "\n")
    }
}

/// The section of a project.
fn render_project(project: &ProjectDigest) -> (r: String)
    ensures
        r@ == (project_section())(project@),
{
    let mut out = "\n### ".to_owned();
    out.append(project.name.as_str());
    let branch = match &project.branch {
        Some(b) => text::concat3(" (", b.as_str(), ")"),
        None => {
            let none = String::new();
            assert(none@ =~= seq![]);
            none
        },
    };
    out.append(branch.as_str());
    out.append("\n");
    let commits = render_commits(project);
    out.append(commits.as_str());
    let created = render_list("- новые ветки: ", &project.branches_created, ", ");
    out.append(created.as_str());
    let deleted = render_list("- удалены ветки: ", &project.branches_deleted, ", ");
    out.append(deleted.as_str());
    let checkouts = render_list("- переключения на: ", &project.checkouts, " → ");
    out.append(checkouts.as_str());
    let uncommitted = if project.uncommitted_files > 0 {
        let files = files_word(project.uncommitted_files);
        text::concat3("- незакоммичено: ", files.as_str(), "\n")
    } else {
        let none = String::new();
        assert(none@ =~= seq![]);
        none
    };
    out.append(uncommitted.as_str());
    out
}

/// The sections of projects.
fn render_projects(projects: &Vec<ProjectDigest>) -> (r: String)
    ensures
        r@ == text::run_together(order::views(projects@).map_values(project_section())),
{
    let ghost sections = order::views(projects@).map_values(project_section());
    let mut out = String::new();
    let mut i: usize = 0;
    assert(out@ =~= text::run_together(sections.take(0)));
    while i < projects.len()
        invariant
            i <= projects.len(),
            sections == order::views(projects@).map_values(project_section()),
            out@ == text::run_together(sections.take(i as int)),
        decreases projects.len() - i,
    {
        let section = render_project(&projects[i]);
        assert(sections.take(i + 1).drop_last() =~= sections.take(i as int));
        assert(sections.take(i + 1).last() == section@);
        out.append(section.as_str());
        i += 1;
    }
    assert(sections.take(i as int) =~= sections);
    out
}

/// The line of totals.
fn render_totals(totals: &Totals) -> (r: String)
    ensures
        r@ == totals_line(totals@),
{
    let mut out = String::new();
    if totals.projects > 0 {
        out = plural(totals.projects as u64, "проект", "проекта", "проектов");
        out.append(", ");
        let word = commits_word(totals.commits);
        out.append(word.as_str());
        out.append(", +");
        text::push_u64(&mut out, totals.insertions);
        out.append(" −");
        text::push_u64(&mut out, totals.deletions);
        out.append("\n");
    } else {
        assert(out@ =~= seq![]);
    }
    out
}

/// Uncommitted work as entries of a list.
fn render_uncommitted(list: &Vec<Uncommitted>) -> (r: Vec<String>)
    ensures
        text::texts(r@) == order::views(list@).map_values(uncommitted_text()),
{
    let ghost wanted = order::views(list@).map_values(uncommitted_text());
    let mut r: Vec<String> = Vec::new();
    let mut i: usize = 0;
    assert(text::texts(r@) =~= wanted.take(0));
    while i < list.len()
        invariant
            i <= list.len(),
            wanted == order::views(list@).map_values(uncommitted_text()),
            text::texts(r@) == wanted.take(i as int),
        decreases list.len() - i,
    {
        let ghost done = text::texts(r@);
        let files = files_word(list[i].files);
        let mut entry = text::concat2(list[i].name.as_str(), " (");
        entry.append(files.as_str());
        entry.append(")");
        r.push(entry);
        assert(entry@ == wanted[i as int]);
        assert(text::texts(r@) =~= done.push(entry@));
        assert(wanted.take(i + 1) =~= wanted.take(i as int).push(wanted[i as int]));
        i += 1;
    }
    assert(wanted.take(i as int) =~= wanted);
    r
}

/// The text of a digest for a period whose bounds are shown as the two texts.
pub fn render_period(digest: &Digest, from: &str, to: &str) -> (r: String)
    ensures
        r@ == digest_text(digest@, from@, to@),
{
    let mut out = "## Активность ".to_owned();
    out.append(from);
    out.append(" — ");
    out.append(to);
    out.append("\n\n");
    let totals = render_totals(&digest.totals);
    out.append(totals.as_str());
    let projects = render_projects(&digest.projects);
    out.append(projects.as_str());
    let added = render_list("\nНовые проекты: ", &digest.added_projects, ", ");
    out.append(added.as_str());
    let removed = render_list("\nПропавшие проекты: ", &digest.removed_projects, ", ");
    out.append(removed.as_str());
    let entries = render_uncommitted(&digest.uncommitted_elsewhere);
    let elsewhere = render_list("\nНезакоммичено без новых событий: ", &entries, ", ");
    out.append(elsewhere.as_str());
    out
}

/// Markdown for a person to read.
pub fn render(digest: &Digest, from: i64, to: i64) -> (r: String)
    ensures
        exists|shown_from: Seq<char>, shown_to: Seq<char>| #[trigger]
            time::is_short(shown_from, from) && #[trigger] time::is_short(shown_to, to) && r@
                == digest_text(digest@, shown_from, shown_to),
{
    let shown_from = time::short(from);
    let shown_to = time::short(to);
    let r = render_period(digest, shown_from.as_str(), shown_to.as_str());
    assert(time::is_short(shown_from@, from) && time::is_short(shown_to@, to));
    r
}

// --- the digest as a value -----------------------------------------------

/// A commit as a value.
pub open spec fn commit_json() -> spec_fn(CommitBriefModel) -> Json {
    |c: CommitBriefModel|
        Json::Object(
            map![
                "sha"@ => Json::Text(c.sha),
                "branch"@ => Json::Text(c.branch),
                "author"@ => Json::Text(c.author),
                "subject"@ => Json::Text(c.subject),
                "insertions"@ => Json::Number(text::decimal(c.insertions)),
                "deletions"@ => Json::Number(text::decimal(c.deletions)),
            ],
        )
}

/// The digest of a project as a value.
pub open spec fn project_json() -> spec_fn(ProjectDigestModel) -> Json {
    |p: ProjectDigestModel|
        Json::Object(
            map![
                "name"@ => Json::Text(p.name),
                "branch"@ => json::opt_json(p.branch),
                "commits"@ => Json::List(p.commits.map_values(commit_json())),
                "authors"@ => json::texts_json(p.authors),
                "insertions"@ => Json::Number(text::decimal(p.insertions)),
                "deletions"@ => Json::Number(text::decimal(p.deletions)),
                "branches_created"@ => json::texts_json(p.branches_created),
                "branches_deleted"@ => json::texts_json(p.branches_deleted),
                "checkouts"@ => json::texts_json(p.checkouts),
                "uncommitted_files"@ => Json::Number(text::decimal_signed(p.uncommitted_files)),
            ],
        )
}

/// Uncommitted work as a value.
pub open spec fn uncommitted_json() -> spec_fn(UncommittedModel) -> Json {
    |u: UncommittedModel|
        Json::Object(
            map![
                "name"@ => Json::Text(u.name),
                "files"@ => Json::Number(text::decimal_signed(u.files)),
            ],
        )
}

/// Totals as a value.
pub open spec fn totals_json(t: TotalsModel) -> Json {
    Json::Object(
        map![
            "projects"@ => Json::Number(text::decimal(t.projects)),
            "commits"@ => Json::Number(text::decimal(t.commits)),
            "insertions"@ => Json::Number(text::decimal(t.insertions)),
            "deletions"@ => Json::Number(text::decimal(t.deletions)),
        ],
    )
}

/// A digest as a value.
pub open spec fn digest_json(d: DigestModel) -> Json {
    Json::Object(
        map![
            "period_from"@ => Json::Text(d.period_from),
            "period_to"@ => Json::Text(d.period_to),
            "totals"@ => totals_json(d.totals),
            "projects"@ => Json::List(d.projects.map_values(project_json())),
            "added_projects"@ => json::texts_json(d.added_projects),
            "removed_projects"@ => json::texts_json(d.removed_projects),
            "uncommitted_elsewhere"@ => Json::List(
                d.uncommitted_elsewhere.map_values(uncommitted_json()),
            ),
        ],
    )
}

fn commit_value(commit: &CommitBrief) -> (r: Value)
    ensures
        json::json_view(r) == (commit_json())(commit@),
{
    let mut r = json::object_value();
    json::set_field(&mut r, "sha", json::text_value(commit.sha.as_str()));
    json::set_field(&mut r, "branch", json::text_value(commit.branch.as_str()));
    json::set_field(&mut r, "author", json::text_value(commit.author.as_str()));
    json::set_field(&mut r, "subject", json::text_value(commit.subject.as_str()));
    json::set_field(&mut r, "insertions", json::count_value(commit.insertions));
    json::set_field(&mut r, "deletions", json::count_value(commit.deletions));
    r
}

fn commit_values(commits: &Vec<CommitBrief>) -> (r: Value)
    ensures
        json::json_view(r) == Json::List(order::views(commits@).map_values(commit_json())),
{
    let ghost wanted = order::views(commits@).map_values(commit_json());
    let mut items: Vec<Value> = Vec::new();
    let mut i: usize = 0;
    assert(json::json_views(items@) =~= wanted.take(0));
    while i < commits.len()
        invariant
            i <= commits.len(),
            wanted == order::views(commits@).map_values(commit_json()),
            json::json_views(items@) == wanted.take(i as int),
        decreases commits.len() - i,
    {
        let ghost done = json::json_views(items@);
        let item = commit_value(&commits[i]);
        items.push(item);
        assert(json::json_views(items@) =~= done.push(json::json_view(item)));
        assert(wanted.take(i + 1) =~= wanted.take(i as int).push(wanted[i as int]));
        i += 1;
    }
    assert(wanted.take(i as int) =~= wanted);
    json::list_value(items)
}

fn project_value(project: &ProjectDigest) -> (r: Value)
    ensures
        json::json_view(r) == (project_json())(project@),
{
    let mut r = json::object_value();
    json::set_field(&mut r, "name", json::text_value(project.name.as_str()));
    json::set_field(&mut r, "branch", json::opt_text_value(&project.branch));
    json::set_field(&mut r, "commits", commit_values(&project.commits));
    json::set_field(&mut r, "authors", json::texts_value(&project.authors));
    json::set_field(&mut r, "insertions", json::count_value(project.insertions));
    json::set_field(&mut r, "deletions", json::count_value(project.deletions));
    json::set_field(&mut r, "branches_created", json::texts_value(&project.branches_created));
    json::set_field(&mut r, "branches_deleted", json::texts_value(&project.branches_deleted));
    json::set_field(&mut r, "checkouts", json::texts_value(&project.checkouts));
    json::set_field(&mut r, "uncommitted_files", json::number_value(project.uncommitted_files));
    r
}

fn project_values(projects: &Vec<ProjectDigest>) -> (r: Value)
    ensures
        json::json_view(r) == Json::List(order::views(projects@).map_values(project_json())),
{
    let ghost wanted = order::views(projects@).map_values(project_json());
    let mut items: Vec<Value> = Vec::new();
    let mut i: usize = 0;
    assert(json::json_views(items@) =~= wanted.take(0));
    while i < projects.len()
        invariant
            i <= projects.len(),
            wanted == order::views(projects@).map_values(project_json()),
            json::json_views(items@) == wanted.take(i as int),
        decreases projects.len() - i,
    {
        let ghost done = json::json_views(items@);
        let item = project_value(&projects[i]);
        items.push(item);
        assert(json::json_views(items@) =~= done.push(json::json_view(item)));
        assert(wanted.take(i + 1) =~= wanted.take(i as int).push(wanted[i as int]));
        i += 1;
    }
    assert(wanted.take(i as int) =~= wanted);
    json::list_value(items)
}

fn uncommitted_values(list: &Vec<Uncommitted>) -> (r: Value)
    ensures
        json::json_view(r) == Json::List(order::views(list@).map_values(uncommitted_json())),
{
    let ghost wanted = order::views(list@).map_values(uncommitted_json());
    let mut items: Vec<Value> = Vec::new();
    let mut i: usize = 0;
    assert(json::json_views(items@) =~= wanted.take(0));
    while i < list.len()
        invariant
            i <= list.len(),
            wanted == order::views(list@).map_values(uncommitted_json()),
            json::json_views(items@) == wanted.take(i as int),
        decreases list.len() - i,
    {
        let ghost done = json::json_views(items@);
        let mut item = json::object_value();
        json::set_field(&mut item, "name", json::text_value(list[i].name.as_str()));
        json::set_field(&mut item, "files", json::number_value(list[i].files));
        items.push(item);
        assert(json::json_view(item) == wanted[i as int]);
        assert(json::json_views(items@) =~= done.push(json::json_view(item)));
        assert(wanted.take(i + 1) =~= wanted.take(i as int).push(wanted[i as int]));
        i += 1;
    }
    assert(wanted.take(i as int) =~= wanted);
    json::list_value(items)
}

/// A digest as a value.
pub fn digest_value(digest: &Digest) -> (r: Value)
    ensures
        json::json_view(r) == digest_json(digest@),
{
    let mut totals = json::object_value();
    json::set_field(&mut totals, "projects", json::count_value(digest.totals.projects as u64));
    json::set_field(&mut totals, "commits", json::count_value(digest.totals.commits as u64));
    json::set_field(&mut totals, "insertions", json::count_value(digest.totals.insertions));
    json::set_field(&mut totals, "deletions", json::count_value(digest.totals.deletions));
    let mut r = json::object_value();
    json::set_field(&mut r, "period_from", json::text_value(digest.period_from.as_str()));
    json::set_field(&mut r, "period_to", json::text_value(digest.period_to.as_str()));
    json::set_field(&mut r, "totals", totals);
    json::set_field(&mut r, "projects", project_values(&digest.projects));
    json::set_field(&mut r, "added_projects", json::texts_value(&digest.added_projects));
    json::set_field(&mut r, "removed_projects", json::texts_value(&digest.removed_projects));
    json::set_field(
        &mut r,
        "uncommitted_elsewhere",
        uncommitted_values(&digest.uncommitted_elsewhere),
    );
    r
}

// --- building ------------------------------------------------------------

/// How the bounds of a period are shown.
#[derive(Debug, Clone)]
pub struct Labels {
    pub period_from: String,
    pub period_to: String,
    pub shown_from: String,
    pub shown_to: String,
}

/// What labels hold.
pub struct LabelsModel {
    pub period_from: Seq<char>,
    pub period_to: Seq<char>,
    pub shown_from: Seq<char>,
    pub shown_to: Seq<char>,
}

impl View for Labels {
    type V = LabelsModel;

    open spec fn view(&self) -> LabelsModel {
        LabelsModel {
            period_from: self.period_from@,
            period_to: self.period_to@,
            shown_from: self.shown_from@,
            shown_to: self.shown_to@,
        }
    }
}

impl LabelsModel {
    /// Whether the labels show the bounds of the period, on local clocks.
    pub open spec fn show(self, from: i64, to: i64) -> bool {
        &&& time::is_rfc3339(self.period_from, from)
        &&& time::is_rfc3339(self.period_to, to)
        &&& time::is_short(self.shown_from, from)
        &&& time::is_short(self.shown_to, to)
    }
}

/// Where the next period begins: at the end of the last one. The first period
/// begins before the first event.
pub open spec fn period_start(s: StoreModel) -> Option<int> {
    match s.last_period_to() {
        Some(last) => Some(last),
        None => match s.earliest_event() {
            Some(first) => Some(first - 1),
            None => None,
        },
    }
}

/// Where the period begins for which a digest is due: none where nothing
/// happened in it.
pub open spec fn due(s: StoreModel, now: int) -> Option<int> {
    match period_start(s) {
        Some(from) => if from < now && s.events_between(from, now).len() > 0 {
            Some(from)
        } else {
            None
        },
        None => None,
    }
}

/// The digest of a period.
pub open spec fn period_digest(s: StoreModel, from: int, now: int, labels: LabelsModel) -> DigestModel {
    digest_of(s.events_between(from, now), s.by_name(), labels.period_from, labels.period_to)
}

/// The store with the digest of a period, and the digest's identifier.
pub open spec fn composed(s: StoreModel, from: int, now: int, labels: LabelsModel) -> (
    StoreModel,
    Result<int, StoreError>,
) {
    let d = period_digest(s, from, now, labels);
    s.insert_digest(
        from,
        now,
        now,
        digest_json(d),
        digest_text(d, labels.shown_from, labels.shown_to),
    )
}

/// The row of a digest, as it is handed out.
pub open spec fn composed_row(s: StoreModel, from: int, now: int, labels: LabelsModel) -> DigestRowModel {
    let d = period_digest(s, from, now, labels);
    DigestRowModel {
        id: composed(s, from, now, labels).1->Ok_0,
        period_from: from,
        period_to: now,
        created_at: now,
        body: digest_json(d),
        text: digest_text(d, labels.shown_from, labels.shown_to),
        acked_at: None,
    }
}

/// The row of a digest, as it is written: with what a column keeps of its body.
pub open spec fn written_row(s: StoreModel, from: int, now: int, labels: LabelsModel) -> DigestRowModel {
    let row = composed_row(s, from, now, labels);
    DigestRowModel { body: json::kept(row.body), ..row }
}

/// Whether numbers and calendar can hold the digest that is due.
pub open spec fn buildable(s: StoreModel, now: i64) -> bool {
    &&& period_start(s) matches Some(from) ==> from >= i64::MIN
    &&& due(s, now as int) matches Some(from) ==> {
        &&& sums_fit(s.events_between(from, now as int))
        &&& time::clear_of_edges(from as i64)
        &&& time::clear_of_edges(now)
    }
}

/// Builds digests: a period lasts from the end of the one before until now.
#[derive(Debug, Clone, Copy)]
pub struct Digester;

impl Digester {
    pub fn new() -> (r: Digester)
        ensures
            r == Digester,
    {
        Digester
    }

    /// Where the period begins for which a digest is due.
    pub fn due(&self, store: &Store, now: i64) -> (r: Option<i64>)
        requires
            period_start(store@) matches Some(from) ==> from >= i64::MIN,
        ensures
            r is Some <==> due(store@, now as int) is Some,
            r matches Some(from) ==> due(store@, now as int) == Some(from as int),
    {
        let from = match store.last_period_to() {
            Some(last) => last,
            None => match store.earliest_event() {
                Some(first) => first - 1,
                None => {
                    return None;
                },
            },
        };
        if from >= now {
            return None;
        }
        let events = store.events_between(from, now);
        assert(order::views(events@).len() == events@.len());
        if events.len() == 0 {
            None
        } else {
            Some(from)
        }
    }

    /// Whether numbers and calendar can hold the digest that is due.
    pub fn can_build(&self, store: &Store, now: i64) -> (r: bool)
        ensures
            r == buildable(store@, now),
    {
        if store.last_period_to().is_none() {
            match store.earliest_event() {
                Some(first) => {
                    if first == i64::MIN {
                        return false;
                    }
                },
                None => {},
            }
        }
        match self.due(store, now) {
            Some(from) => {
                let events = store.events_between(from, now);
                can_sum(&events) && time::is_clear(from) && time::is_clear(now)
            },
            None => true,
        }
    }

    /// Writes the digest of a period whose bounds are shown as the labels say.
    /// It is written as it is handed out.
    pub fn compose(&self, store: &mut Store, from: i64, now: i64, labels: &Labels) -> (r: Result<
        DigestRow,
        StoreError,
    >)
        requires
            old(store)@.wf(),
            sums_fit(old(store)@.events_between(from as int, now as int)),
        ensures
            final(store)@.wf(),
            final(store)@ == composed(old(store)@, from as int, now as int, labels@).0,
            match composed(old(store)@, from as int, now as int, labels@).1 {
                Ok(id) => r matches Ok(row) && row@ == composed_row(
                    old(store)@,
                    from as int,
                    now as int,
                    labels@,
                ),
                Err(e) => r == Err::<DigestRow, StoreError>(e),
            },
            r matches Ok(row) ==> json::is_kept(row@.body) && final(store)@.digests.last() == row@,
            r matches Ok(row) ==> period_laws::is_row_of_period(
                old(store)@,
                from as int,
                now as int,
                labels@,
                row@,
            ),
    {
        let events = store.events_between(from, now);
        let projects = store.projects();
        let digest = gather(
            &events,
            &projects,
            labels.period_from.clone(),
            labels.period_to.clone(),
        );
        let text = render_period(&digest, labels.shown_from.as_str(), labels.shown_to.as_str());
        let body = digest_value(&digest);
        proof {
            a_digest_is_held(digest);
            a_digest_value_is_plain(digest@);
            period_laws::a_composed_digest_tells_its_period(
                store@,
                from as int,
                now as int,
                labels@,
            );
        }
        match store.insert_digest(from, now, now, &body, text.as_str()) {
            Ok(id) => Ok(
                DigestRow {
                    id,
                    period_from: from,
                    period_to: now,
                    created_at: now,
                    body,
                    text,
                    acked_at: None,
                },
            ),
            Err(e) => Err(e),
        }
    }

    /// A new digest, or none where nothing happened in the period. An empty
    /// period does not move the beginning of the next: the next digest covers
    /// it too, so that no event is lost.
    pub fn build(&self, store: &mut Store, now: i64) -> (r: Result<Option<DigestRow>, StoreError>)
        requires
            old(store)@.wf(),
            buildable(old(store)@, now),
        ensures
            final(store)@.wf(),
            due(old(store)@, now as int) is None ==> (r matches Ok(None)) && final(store)@ == old(
                store,
            )@,
            due(old(store)@, now as int) matches Some(from) ==> exists|labels: LabelsModel| #[trigger]
                labels.show(from as i64, now) && final(store)@ == composed(
                    old(store)@,
                    from,
                    now as int,
                    labels,
                ).0 && match composed(old(store)@, from, now as int, labels).1 {
                    Ok(id) => r matches Ok(Some(row)) && row@ == composed_row(
                        old(store)@,
                        from,
                        now as int,
                        labels,
                    ),
                    Err(e) => r == Err::<Option<DigestRow>, StoreError>(e),
                },
            r matches Ok(Some(row)) ==> json::is_kept(row@.body) && final(store)@.digests.last()
                == row@,
            r matches Ok(Some(row)) ==> (due(old(store)@, now as int) matches Some(from)
                && exists|labels: LabelsModel| #[trigger]
                labels.show(from as i64, now) && period_laws::is_row_of_period(
                    old(store)@,
                    from,
                    now as int,
                    labels,
                    row@,
                )),
    {
        let from = match self.due(store, now) {
            Some(from) => from,
            None => {
                return Ok(None);
            },
        };
        let labels = Labels {
            period_from: time::rfc3339(from),
            period_to: time::rfc3339(now),
            shown_from: time::short(from),
            shown_to: time::short(now),
        };
        assert(labels@.show(from, now));
        match self.compose(store, from, now, &labels) {
            Ok(row) => Ok(Some(row)),
            Err(e) => Err(e),
        }
    }
}

// --- laws ----------------------------------------------------------------

/// Periods follow each other: a digest begins where the one before it ended,
/// writes nothing but itself, and the next period begins where it ends.
pub proof fn periods_follow_each_other(
    s: StoreModel,
    from: int,
    now: int,
    labels: LabelsModel,
    later: int,
)
    requires
        due(s, now) == Some(from),
        composed(s, from, now, labels).1 is Ok,
    ensures
        ({
            let t = composed(s, from, now, labels).0;
            &&& s.last_period_to() matches Some(last) ==> from == last
            &&& t.projects == s.projects && t.refs == s.refs && t.events == s.events
            &&& t.digests == s.digests.push(written_row(s, from, now, labels))
            &&& period_start(t) == Some(now)
            &&& due(t, now) is None
            &&& due(t, later) matches Some(next) ==> next == now
        }),
{
    let t = composed(s, from, now, labels).0;
    assert(t.digests.drop_last() =~= s.digests);
}

/// A period in which nothing happened is part of the next: an event that comes
/// later, after however many empty periods, is covered by the digest that is
/// due then, which begins where the last digest ended.
pub proof fn an_event_after_the_last_digest_is_covered(
    s: StoreModel,
    last: int,
    project_id: int,
    kind: Seq<char>,
    seen_at: i64,
    sha: Option<Seq<char>>,
    payload: Json,
    now: int,
)
    requires
        s.last_period_to() == Some(last),
        s.insert_event(project_id, kind, seen_at, sha, payload).1 == Ok::<bool, StoreError>(true),
        last < seen_at <= now,
    ensures
        ({
            let t = s.insert_event(project_id, kind, seen_at, sha, payload).0;
            &&& due(t, now) == Some(last)
            &&& t.events_between(last, now).contains(t.joined(t.events.last()))
        }),
{
    let t = s.insert_event(project_id, kind, seen_at, sha, payload).0;
    store_laws::a_period_holds_its_events(t, last, now);
    let e = t.events[t.events.len() - 1];
    assert(last < e.seen_at <= now);
    assert(t.events_between(last, now).contains(t.joined(e)));
}

/// The first digest covers every event up to now.
pub proof fn the_first_digest_covers_every_event(s: StoreModel, now: int, i: int)
    requires
        s.last_period_to() is None,
        0 <= i < s.events.len(),
        s.events[i].seen_at <= now,
    ensures
        due(s, now) matches Some(from) && s.events_between(from, now).contains(
            s.joined(s.events[i]),
        ),
{
    store_laws::earliest_event_is_least(s);
    let from = period_start(s)->Some_0;
    store_laws::a_period_holds_its_events(s, from, now);
    assert(from < s.events[i].seen_at <= now);
    assert(s.events_between(from, now).contains(s.joined(s.events[i])));
}

/// Every project in which something happened has one section, the busiest
/// first and then by name, and no other project has one.
pub proof fn every_busy_project_has_one_section(
    events: Seq<EventModel>,
    projects: Seq<ProjectModel>,
)
    ensures
        order::in_order(project_digests(events, projects), busiest_first()),
        project_digests(events, projects).to_multiset() == busy_names(events).map_values(
            project_digest_for(events, projects),
        ).to_multiset(),
        busy_names(events).no_duplicates(),
        forall|name: Seq<char>| #[trigger]
            busy_names(events).contains(name) <==> exists|i: int|
                0 <= i < events.len() && (is_work())(#[trigger] events[i]) && events[i].project
                    == name,
{
    let work = events.filter(is_work());
    let named = work.map_values(project_of());
    lemma_busiest_first();
    order::sorted_is_permutation(
        busy_names(events).map_values(project_digest_for(events, projects)),
        busiest_first(),
    );
    order::sorted_is_in_order(
        busy_names(events).map_values(project_digest_for(events, projects)),
        busiest_first(),
    );
    order::lemma_distinct(named);
    order::lemma_filter_contains(events, is_work());
    assert forall|name: Seq<char>| #[trigger]
        busy_names(events).contains(name) <==> exists|i: int|
            0 <= i < events.len() && (is_work())(#[trigger] events[i]) && events[i].project
                == name by {
        if busy_names(events).contains(name) {
            assert(named.contains(name));
            let k = choose|k: int| 0 <= k < named.len() && named[k] == name;
            assert(work.contains(work[k]));
            let i = choose|i: int| 0 <= i < events.len() && events[i] == work[k];
            assert((is_work())(events[i]));
        }
        if exists|i: int|
            0 <= i < events.len() && (is_work())(#[trigger] events[i]) && events[i].project
                == name {
            let i = choose|i: int|
                0 <= i < events.len() && (is_work())(#[trigger] events[i]) && events[i].project
                    == name;
            assert(events.contains(events[i]));
            assert(work.contains(events[i]));
            let k = choose|k: int| 0 <= k < work.len() && work[k] == events[i];
            assert(named[k] == name);
            assert(named.contains(name));
        }
    }
}

/// `busiest_first` is an order.
proof fn lemma_busiest_first()
    ensures
        order::is_order(busiest_first()),
{
    let before = busiest_first();
    assert forall|a: ProjectDigestModel, b: ProjectDigestModel| #[trigger]
        before(a, b) implies !before(b, a) by {
        text::lemma_precedes_total(a.name, b.name);
    }
    assert forall|a: ProjectDigestModel, b: ProjectDigestModel, c: ProjectDigestModel|
        #![trigger before(b, a), before(c, b)]
        !before(b, a) && !before(c, b) implies !before(c, a) by {
        if before(c, a) {
            text::lemma_precedes_total(a.name, b.name);
            text::lemma_precedes_total(b.name, c.name);
            text::lemma_precedes_total(a.name, c.name);
            if a.name != b.name && text::precedes(c.name, a.name) && text::precedes(
                a.name,
                b.name,
            ) {
                text::lemma_precedes_transitive(c.name, a.name, b.name);
            }
        }
    }
}

/// Events that are about a project.
pub open spec fn about(name: Seq<char>) -> spec_fn(EventModel) -> bool {
    |e: EventModel| e.project == name
}

/// Whether two sequences of events tell the same of every project; they may
/// differ in how the events of projects follow each other.
pub open spec fn same_by_project(a: Seq<EventModel>, b: Seq<EventModel>) -> bool {
    forall|name: Seq<char>| #[trigger] a.filter(about(name)) == b.filter(about(name))
}

/// Events of a kind in a project are found among those about the project.
proof fn lemma_kind_within(a: Seq<EventModel>, b: Seq<EventModel>, name: Seq<char>, kind: Seq<char>)
    requires
        same_by_project(a, b),
    ensures
        a.filter(in_project(name, kind)) == b.filter(in_project(name, kind)),
{
    order::lemma_filter_within(a, about(name), in_project(name, kind));
    order::lemma_filter_within(b, about(name), in_project(name, kind));
    assert(a.filter(about(name)) == b.filter(about(name)));
}

/// An event is in both sequences or in neither.
proof fn lemma_same_events(a: Seq<EventModel>, b: Seq<EventModel>, e: EventModel)
    requires
        same_by_project(a, b),
    ensures
        a.contains(e) <==> b.contains(e),
{
    order::lemma_filter_contains(a, about(e.project));
    order::lemma_filter_contains(b, about(e.project));
    assert(a.filter(about(e.project)) == b.filter(about(e.project)));
    assert(a.filter(about(e.project)).contains(e) <==> a.contains(e));
    assert(b.filter(about(e.project)).contains(e) <==> b.contains(e));
}

/// A project that is busy by one of the sequences is busy by the other.
proof fn lemma_busy_in_both(a: Seq<EventModel>, b: Seq<EventModel>, name: Seq<char>)
    requires
        same_by_project(a, b),
        busy_names(a).contains(name),
    ensures
        busy_names(b).contains(name),
{
    every_busy_project_has_one_section(a, Seq::empty());
    every_busy_project_has_one_section(b, Seq::empty());
    let i = choose|i: int|
        0 <= i < a.len() && (is_work())(#[trigger] a[i]) && a[i].project == name;
    assert(a.contains(a[i]));
    lemma_same_events(a, b, a[i]);
    let k = choose|k: int| 0 <= k < b.len() && b[k] == a[i];
    assert((is_work())(b[k]) && b[k].project == name);
}

/// How the events of different projects follow each other makes no difference
/// to the sections of a digest, to its totals and to the uncommitted work that
/// it reminds of.
pub proof fn projects_may_interleave(
    a: Seq<EventModel>,
    b: Seq<EventModel>,
    projects: Seq<ProjectModel>,
    period_from: Seq<char>,
    period_to: Seq<char>,
)
    requires
        same_by_project(a, b),
    ensures
        ({
            let d = digest_of(a, projects, period_from, period_to);
            let e = digest_of(b, projects, period_from, period_to);
            &&& d.projects == e.projects
            &&& d.totals == e.totals
            &&& d.uncommitted_elsewhere == e.uncommitted_elsewhere
        }),
{
    let section = project_digest_for(a, projects);
    assert forall|name: Seq<char>| #[trigger] project_digest(a, projects, name) == project_digest(
        b,
        projects,
        name,
    ) by {
        lemma_kind_within(a, b, name, "commit"@);
        lemma_kind_within(a, b, name, "branch_created"@);
        lemma_kind_within(a, b, name, "branch_deleted"@);
        lemma_kind_within(a, b, name, "checkout"@);
    }
    assert(section =~= project_digest_for(b, projects));
    let x = busy_names(a).map_values(section);
    let y = busy_names(b).map_values(section);
    every_busy_project_has_one_section(a, projects);
    every_busy_project_has_one_section(b, projects);
    lemma_busiest_first();
    assert forall|p: ProjectDigestModel| #[trigger] x.contains(p) implies y.contains(p) by {
        let i = choose|i: int| 0 <= i < x.len() && x[i] == p;
        assert(busy_names(a).contains(busy_names(a)[i]));
        lemma_busy_in_both(a, b, busy_names(a)[i]);
        let k = choose|k: int| 0 <= k < busy_names(b).len() && busy_names(b)[k] == busy_names(a)[i];
        assert(y[k] == p);
    }
    assert(same_by_project(b, a));
    assert forall|p: ProjectDigestModel| #[trigger] y.contains(p) implies x.contains(p) by {
        let i = choose|i: int| 0 <= i < y.len() && y[i] == p;
        assert(busy_names(b).contains(busy_names(b)[i]));
        lemma_busy_in_both(b, a, busy_names(b)[i]);
        let k = choose|k: int| 0 <= k < busy_names(a).len() && busy_names(a)[k] == busy_names(b)[i];
        assert(x[k] == p);
    }
    let before = busiest_first();
    assert forall|p: ProjectDigestModel, q: ProjectDigestModel|
        x.contains(p) && x.contains(q) && p != q implies #[trigger] before(p, q) || before(q, p) by {
        let i = choose|i: int| 0 <= i < x.len() && x[i] == p;
        let k = choose|k: int| 0 <= k < x.len() && x[k] == q;
        assert(p == section(busy_names(a)[i]) && q == section(busy_names(a)[k]));
        text::lemma_precedes_total(p.name, q.name);
    }
    assert forall|i: int, k: int| 0 <= i < x.len() && 0 <= k < x.len() && i != k implies x[i]
        != x[k] by {
        assert(x[i].name == busy_names(a)[i] && x[k].name == busy_names(a)[k]);
    }
    assert forall|i: int, k: int| 0 <= i < y.len() && 0 <= k < y.len() && i != k implies y[i]
        != y[k] by {
        assert(y[i].name == busy_names(b)[i] && y[k].name == busy_names(b)[k]);
    }
    order::sorting_forgets_the_order(x, y, before);
    assert forall|p: ProjectModel| #[trigger] (is_left_over(mentioned(a)))(p) == (is_left_over(
        mentioned(b),
    ))(p) by {
        if mentioned(a).contains(p.name) {
            lemma_mentioned_in_both(a, b, p.name);
        }
        if mentioned(b).contains(p.name) {
            lemma_mentioned_in_both(b, a, p.name);
        }
    }
    assert(is_left_over(mentioned(a)) =~= is_left_over(mentioned(b)));
}

/// A project that an event of one of the sequences is about is named in both.
proof fn lemma_mentioned_in_both(a: Seq<EventModel>, b: Seq<EventModel>, name: Seq<char>)
    requires
        same_by_project(a, b),
        mentioned(a).contains(name),
    ensures
        mentioned(b).contains(name),
{
    let i = choose|i: int| 0 <= i < mentioned(a).len() && mentioned(a)[i] == name;
    assert(a.contains(a[i]));
    lemma_same_events(a, b, a[i]);
    let k = choose|k: int| 0 <= k < b.len() && b[k] == a[i];
    assert(mentioned(b)[k] == name);
}

/// Whether the numbers of a digest are numbers of 64 bits.
pub open spec fn is_held(d: DigestModel) -> bool {
    &&& d.totals.projects <= u64::MAX
    &&& d.totals.commits <= u64::MAX
    &&& d.totals.insertions <= u64::MAX
    &&& d.totals.deletions <= u64::MAX
    &&& forall|i: int|
        0 <= i < d.projects.len() ==> {
            let p = #[trigger] d.projects[i];
            &&& p.insertions <= u64::MAX
            &&& p.deletions <= u64::MAX
            &&& i64::MIN <= p.uncommitted_files <= i64::MAX
            &&& forall|k: int|
                0 <= k < p.commits.len() ==> (#[trigger] p.commits[k]).insertions <= u64::MAX
                    && p.commits[k].deletions <= u64::MAX
        }
    &&& forall|i: int|
        0 <= i < d.uncommitted_elsewhere.len() ==> i64::MIN <= (
        #[trigger] d.uncommitted_elsewhere[i]).files <= i64::MAX
}

/// Every digest that a value can be made of has numbers of 64 bits.
pub proof fn a_digest_is_held(digest: Digest)
    ensures
        is_held(digest@),
{
    let d = digest@;
    assert forall|i: int| 0 <= i < d.projects.len() implies {
        let p = #[trigger] d.projects[i];
        &&& p.insertions <= u64::MAX
        &&& p.deletions <= u64::MAX
        &&& i64::MIN <= p.uncommitted_files <= i64::MAX
        &&& forall|k: int|
            0 <= k < p.commits.len() ==> (#[trigger] p.commits[k]).insertions <= u64::MAX
                && p.commits[k].deletions <= u64::MAX
    } by {
        assert(d.projects[i] == digest.projects@[i]@);
        let p = d.projects[i];
        assert forall|k: int| 0 <= k < p.commits.len() implies (#[trigger] p.commits[k]).insertions
            <= u64::MAX && p.commits[k].deletions <= u64::MAX by {
            assert(p.commits[k] == digest.projects@[i].commits@[k]@);
        }
    }
    assert forall|i: int| 0 <= i < d.uncommitted_elsewhere.len() implies i64::MIN <= (
    #[trigger] d.uncommitted_elsewhere[i]).files <= i64::MAX by {
        assert(d.uncommitted_elsewhere[i] == digest.uncommitted_elsewhere@[i]@);
    }
}

/// No key of a digest's value is reserved, beside those that the payloads of
/// events have too.
proof fn lemma_keys_are_free()
    ensures
        !json::is_reserved("name"@),
        !json::is_reserved("commits"@),
        !json::is_reserved("authors"@),
        !json::is_reserved("branches_created"@),
        !json::is_reserved("branches_deleted"@),
        !json::is_reserved("checkouts"@),
        !json::is_reserved("uncommitted_files"@),
        !json::is_reserved("projects"@),
        !json::is_reserved("period_from"@),
        !json::is_reserved("period_to"@),
        !json::is_reserved("totals"@),
        !json::is_reserved("added_projects"@),
        !json::is_reserved("removed_projects"@),
        !json::is_reserved("uncommitted_elsewhere"@),
{
    reveal_strlit("$serde_json::private::");
    reveal_strlit("name");
    reveal_strlit("commits");
    reveal_strlit("authors");
    reveal_strlit("branches_created");
    reveal_strlit("branches_deleted");
    reveal_strlit("checkouts");
    reveal_strlit("uncommitted_files");
    reveal_strlit("projects");
    reveal_strlit("period_from");
    reveal_strlit("period_to");
    reveal_strlit("totals");
    reveal_strlit("added_projects");
    reveal_strlit("removed_projects");
    reveal_strlit("uncommitted_elsewhere");
}

/// The value of a digest survives being written as text and read again.
pub proof fn a_digest_value_is_plain(d: DigestModel)
    requires
        is_held(d),
    ensures
        json::is_plain(digest_json(d), json::MAX_DEPTH as nat),
{
    let depth = json::MAX_DEPTH as nat;
    reveal_with_fuel(json::is_plain, 2);
    lemma_keys_are_free();
    collector::lemma_keys_are_free();
    json::lemma_count_is_scalar(d.totals.projects);
    json::lemma_count_is_scalar(d.totals.commits);
    json::lemma_count_is_scalar(d.totals.insertions);
    json::lemma_count_is_scalar(d.totals.deletions);
    assert(json::is_plain(totals_json(d.totals), (depth - 1) as nat));
    let projects = d.projects.map_values(project_json());
    assert forall|i: int| 0 <= i < projects.len() implies json::is_plain(
        #[trigger] projects[i],
        (depth - 2) as nat,
    ) by {
        lemma_project_is_plain(d.projects[i], (depth - 2) as nat);
    }
    assert(json::is_plain(Json::List(projects), (depth - 1) as nat));
    let left = d.uncommitted_elsewhere.map_values(uncommitted_json());
    assert forall|i: int| 0 <= i < left.len() implies json::is_plain(
        #[trigger] left[i],
        (depth - 2) as nat,
    ) by {
        json::lemma_number_is_scalar(d.uncommitted_elsewhere[i].files);
    }
    assert(json::is_plain(Json::List(left), (depth - 1) as nat));
    json::lemma_texts_are_plain(d.added_projects, (depth - 1) as nat);
    json::lemma_texts_are_plain(d.removed_projects, (depth - 1) as nat);
}

proof fn lemma_project_is_plain(p: ProjectDigestModel, depth: nat)
    requires
        depth >= 3,
        p.insertions <= u64::MAX,
        p.deletions <= u64::MAX,
        i64::MIN <= p.uncommitted_files <= i64::MAX,
        forall|k: int|
            0 <= k < p.commits.len() ==> (#[trigger] p.commits[k]).insertions <= u64::MAX
                && p.commits[k].deletions <= u64::MAX,
    ensures
        json::is_plain((project_json())(p), depth),
{
    reveal_with_fuel(json::is_plain, 2);
    lemma_keys_are_free();
    collector::lemma_keys_are_free();
    json::lemma_count_is_scalar(p.insertions);
    json::lemma_count_is_scalar(p.deletions);
    json::lemma_number_is_scalar(p.uncommitted_files);
    json::lemma_texts_are_plain(p.authors, (depth - 1) as nat);
    json::lemma_texts_are_plain(p.branches_created, (depth - 1) as nat);
    json::lemma_texts_are_plain(p.branches_deleted, (depth - 1) as nat);
    json::lemma_texts_are_plain(p.checkouts, (depth - 1) as nat);
    let commits = p.commits.map_values(commit_json());
    assert forall|k: int| 0 <= k < commits.len() implies json::is_plain(
        #[trigger] commits[k],
        (depth - 2) as nat,
    ) by {
        json::lemma_count_is_scalar(p.commits[k].insertions);
        json::lemma_count_is_scalar(p.commits[k].deletions);
    }
    assert(json::is_plain(Json::List(commits), (depth - 1) as nat));
}

/// The commits that a text lists and the number that it gives for the rest
/// make up all commits of the project, and it lists the latest ones.
pub proof fn no_commit_is_left_unmentioned(commits: Seq<CommitBriefModel>)
    ensures
        listed(commits).len() <= MAX_COMMITS_IN_TEXT,
        commits.len() > MAX_COMMITS_IN_TEXT ==> listed(commits).len() + (commits.len()
            - MAX_COMMITS_IN_TEXT) == commits.len(),
        commits.len() <= MAX_COMMITS_IN_TEXT ==> listed(commits).len() == commits.len(),
        forall|i: int|
            0 <= i < listed(commits).len() ==> #[trigger] listed(commits)[i] == commits[commits.len()
                - 1 - i],
{
}

/// A period without events is an empty digest.
pub proof fn no_events_give_an_empty_digest(
    projects: Seq<ProjectModel>,
    period_from: Seq<char>,
    period_to: Seq<char>,
)
    ensures
        ({
            let d = digest_of(Seq::<EventModel>::empty(), projects, period_from, period_to);
            &&& d.projects == Seq::<ProjectDigestModel>::empty()
            &&& d.added_projects == Seq::<Seq<char>>::empty()
            &&& d.removed_projects == Seq::<Seq<char>>::empty()
            &&& d.totals == (TotalsModel { projects: 0, commits: 0, insertions: 0, deletions: 0 })
        }),
{
    reveal(Seq::filter);
    let none = Seq::<EventModel>::empty();
    let d = digest_of(none, projects, period_from, period_to);
    assert(none.filter(is_work()).map_values(project_of()) =~= Seq::<Seq<char>>::empty());
    assert(busy_names(none) =~= Seq::<Seq<char>>::empty());
    assert(d.projects =~= Seq::<ProjectDigestModel>::empty());
    assert(d.added_projects =~= Seq::<Seq<char>>::empty());
    assert(d.removed_projects =~= Seq::<Seq<char>>::empty());
}

} // verus!
