//! Turning the state of repositories into events of the journal.
//!
//! The source of truth is git, not file events: those only tell which
//! projects to look at before their time. What git says is handed in; the
//! functions here decide what to ask, and what to write.

use crate::discovery;
use crate::discovery::{Found, FoundModel, PartModel, Walker};
use crate::git;
use crate::git::{Commit, CommitModel, GitResult};
use crate::json;
use crate::json::Json;
use crate::order;
use crate::scan_laws;
use crate::search_laws;
use crate::store;
use crate::store::{
    ProjectModel, ProjectRow, RefModel, RefRow, Snapshot, SnapshotModel, Store, StoreError,
    StoreModel,
};
use crate::text;
use crate::time;
use serde_json::Value;
use vstd::prelude::*;

verus! {

/// Why a scan stopped.
#[derive(Debug, Clone, PartialEq)]
pub enum ScanError {
    /// A command failed.
    Git(String),
    /// A row was not written.
    Store(StoreError),
}

/// What stopped a scan.
pub enum Failure {
    Git(Seq<char>),
    Store(StoreError),
}

impl View for ScanError {
    type V = Failure;

    open spec fn view(&self) -> Failure {
        match self {
            ScanError::Git(text) => Failure::Git(text@),
            ScanError::Store(e) => Failure::Store(*e),
        }
    }
}

/// Whether a function ended as its model says.
pub open spec fn ended(r: Result<(), ScanError>, model: Result<(), Failure>) -> bool {
    match (r, model) {
        (Ok(_), Ok(_)) => true,
        (Err(e), Err(f)) => e@ == f,
        _ => false,
    }
}

// --- payloads ------------------------------------------------------------

/// The payload of an event about a project.
pub open spec fn path_payload(path: Seq<char>) -> Json {
    Json::Object(map!["path"@ => Json::Text(path)])
}

/// The payload of an event about a branch.
pub open spec fn branch_payload(branch: Seq<char>, sha: Seq<char>) -> Json {
    Json::Object(map!["branch"@ => Json::Text(branch), "sha"@ => Json::Text(sha)])
}

/// The payload of a checkout.
pub open spec fn checkout_payload(from: Seq<char>, to: Seq<char>) -> Json {
    Json::Object(map!["from"@ => Json::Text(from), "to"@ => Json::Text(to)])
}

/// The payload of a commit.
pub open spec fn commit_payload(c: CommitModel, branch: Seq<char>) -> Json {
    Json::Object(
        map![
            "sha"@ => Json::Text(c.sha),
            "author"@ => Json::Text(c.author),
            "email"@ => Json::Text(c.email),
            "committed_at"@ => Json::Number(text::decimal_signed(c.committed_at)),
            "subject"@ => Json::Text(c.subject),
            "files_changed"@ => Json::Number(text::decimal(c.files_changed)),
            "insertions"@ => Json::Number(text::decimal(c.insertions)),
            "deletions"@ => Json::Number(text::decimal(c.deletions)),
            "files"@ => json::texts_json(c.files),
            "branch"@ => Json::Text(branch),
        ],
    )
}

/// No key of an event's payload is reserved.
pub proof fn lemma_keys_are_free()
    ensures
        !json::is_reserved("sha"@),
        !json::is_reserved("author"@),
        !json::is_reserved("email"@),
        !json::is_reserved("committed_at"@),
        !json::is_reserved("subject"@),
        !json::is_reserved("files_changed"@),
        !json::is_reserved("insertions"@),
        !json::is_reserved("deletions"@),
        !json::is_reserved("files"@),
        !json::is_reserved("branch"@),
        !json::is_reserved("from"@),
        !json::is_reserved("to"@),
        !json::is_reserved("path"@),
{
    reveal_strlit("$serde_json::private::");
    reveal_strlit("sha");
    reveal_strlit("author");
    reveal_strlit("email");
    reveal_strlit("committed_at");
    reveal_strlit("subject");
    reveal_strlit("files_changed");
    reveal_strlit("insertions");
    reveal_strlit("deletions");
    reveal_strlit("files");
    reveal_strlit("branch");
    reveal_strlit("from");
    reveal_strlit("to");
    reveal_strlit("path");
}

/// The payload of a commit is plain.
pub proof fn commit_payloads_are_plain(c: CommitModel, branch: Seq<char>)
    requires
        c.files_changed <= u64::MAX,
        c.insertions <= u64::MAX,
        c.deletions <= u64::MAX,
        i64::MIN <= c.committed_at <= i64::MAX,
    ensures
        json::is_plain(commit_payload(c, branch), json::MAX_DEPTH as nat),
{
    reveal_with_fuel(json::is_plain, 2);
    lemma_keys_are_free();
    json::lemma_number_is_scalar(c.committed_at);
    json::lemma_count_is_scalar(c.files_changed);
    json::lemma_count_is_scalar(c.insertions);
    json::lemma_count_is_scalar(c.deletions);
    json::lemma_texts_are_plain(c.files, (json::MAX_DEPTH - 1) as nat);
}

/// The payload of a branch that came or went is plain.
pub proof fn branch_payloads_are_plain(branch: Seq<char>, sha: Seq<char>)
    ensures
        json::is_plain(branch_payload(branch, sha), json::MAX_DEPTH as nat),
{
    reveal_with_fuel(json::is_plain, 2);
    lemma_keys_are_free();
}

/// The payload of a checkout is plain.
pub proof fn checkout_payloads_are_plain(from: Seq<char>, to: Seq<char>)
    ensures
        json::is_plain(checkout_payload(from, to), json::MAX_DEPTH as nat),
{
    reveal_with_fuel(json::is_plain, 2);
    lemma_keys_are_free();
}

/// The payload of a project that came or went is plain.
pub proof fn path_payloads_are_plain(path: Seq<char>)
    ensures
        json::is_plain(path_payload(path), json::MAX_DEPTH as nat),
{
    reveal_with_fuel(json::is_plain, 2);
    lemma_keys_are_free();
}

fn path_value(path: &str) -> (r: Value)
    ensures
        json::json_view(r) == path_payload(path@),
{
    let mut r = json::object_value();
    json::set_field(&mut r, "path", json::text_value(path));
    r
}

fn branch_value(branch: &str, sha: &str) -> (r: Value)
    ensures
        json::json_view(r) == branch_payload(branch@, sha@),
{
    let mut r = json::object_value();
    json::set_field(&mut r, "branch", json::text_value(branch));
    json::set_field(&mut r, "sha", json::text_value(sha));
    r
}

fn checkout_value(from: &str, to: &str) -> (r: Value)
    ensures
        json::json_view(r) == checkout_payload(from@, to@),
{
    let mut r = json::object_value();
    json::set_field(&mut r, "from", json::text_value(from));
    json::set_field(&mut r, "to", json::text_value(to));
    r
}

/// The payload of a commit.
pub fn commit_value(commit: &Commit, branch: &str) -> (r: Value)
    ensures
        json::json_view(r) == commit_payload(commit@, branch@),
{
    let mut r = json::object_value();
    json::set_field(&mut r, "sha", json::text_value(commit.sha.as_str()));
    json::set_field(&mut r, "author", json::text_value(commit.author.as_str()));
    json::set_field(&mut r, "email", json::text_value(commit.email.as_str()));
    json::set_field(&mut r, "committed_at", json::number_value(commit.committed_at));
    json::set_field(&mut r, "subject", json::text_value(commit.subject.as_str()));
    json::set_field(&mut r, "files_changed", json::count_value(commit.files_changed as u64));
    json::set_field(&mut r, "insertions", json::count_value(commit.insertions));
    json::set_field(&mut r, "deletions", json::count_value(commit.deletions));
    json::set_field(&mut r, "files", json::texts_value(&commit.files));
    json::set_field(&mut r, "branch", json::text_value(branch));
    r
}

// --- what to ask ---------------------------------------------------------

/// A branch to take in: a new one, or one whose tip has moved.
#[derive(Debug, Clone, PartialEq)]
pub struct BranchStep {
    pub branch: String,
    pub sha: String,
    pub created: bool,
    /// The commits from which history is already known.
    pub exclude: Vec<String>,
}

/// What a branch to take in holds.
pub struct StepModel {
    pub branch: Seq<char>,
    pub sha: Seq<char>,
    pub created: bool,
    pub exclude: Seq<Seq<char>>,
}

impl View for BranchStep {
    type V = StepModel;

    open spec fn view(&self) -> StepModel {
        StepModel {
            branch: self.branch@,
            sha: self.sha@,
            created: self.created,
            exclude: text::texts(self.exclude@),
        }
    }
}

/// The tip of the branch of that name.
pub open spec fn tip_named(branch: Seq<char>) -> spec_fn(RefModel) -> bool {
    |r: RefModel| r.name == branch
}

/// The tip that is known of a branch.
pub open spec fn cursor_of(cursors: Seq<RefModel>, branch: Seq<char>) -> Option<Seq<char>> {
    match order::position(cursors, tip_named(branch)) {
        Some(i) => Some(cursors[i].sha),
        None => None,
    }
}

/// Branches that were there.
pub open spec fn is_existing(cursors: Seq<RefModel>) -> spec_fn((Seq<char>, Seq<char>)) -> bool {
    |head: (Seq<char>, Seq<char>)| cursor_of(cursors, head.0) is Some
}

/// Branches that were there and whose tip has moved.
pub open spec fn is_moved(cursors: Seq<RefModel>) -> spec_fn((Seq<char>, Seq<char>)) -> bool {
    |head: (Seq<char>, Seq<char>)|
        cursor_of(cursors, head.0) matches Some(sha) && sha != head.1
}

/// Branches that are new.
pub open spec fn is_created(cursors: Seq<RefModel>) -> spec_fn((Seq<char>, Seq<char>)) -> bool {
    |head: (Seq<char>, Seq<char>)| cursor_of(cursors, head.0) is None
}

/// The tip of a branch.
pub open spec fn sha_of() -> spec_fn((Seq<char>, Seq<char>)) -> Seq<char> {
    |head: (Seq<char>, Seq<char>)| head.1
}

/// The tip that is known.
pub open spec fn known_sha() -> spec_fn(RefModel) -> Seq<char> {
    |r: RefModel| r.sha
}

/// A branch to take in.
pub open spec fn step_for(created: bool, exclude: Seq<Seq<char>>) -> spec_fn(
    (Seq<char>, Seq<char>),
) -> StepModel {
    |head: (Seq<char>, Seq<char>)| StepModel { branch: head.0, sha: head.1, created, exclude }
}

/// The tips that are known: all of them, not only the branch's own, so that a
/// branch off `main` does not bring in all history of `main`.
pub open spec fn known_tips(cursors: Seq<RefModel>) -> Seq<Seq<char>> {
    cursors.map_values(known_sha())
}

/// For new branches, the tips of the branches that were there are known too:
/// a commit made in `main` before a branch was made is one of `main`.
pub open spec fn known_to_new(heads: Seq<(Seq<char>, Seq<char>)>, cursors: Seq<RefModel>) -> Seq<
    Seq<char>,
> {
    known_tips(cursors) + heads.filter(is_existing(cursors)).map_values(sha_of())
}

/// The branches to take in: first those that were there, then the new ones.
pub open spec fn steps_of(heads: Seq<(Seq<char>, Seq<char>)>, cursors: Seq<RefModel>) -> Seq<
    StepModel,
> {
    heads.filter(is_moved(cursors)).map_values(step_for(false, known_tips(cursors)))
        + heads.filter(is_created(cursors)).map_values(
        step_for(true, known_to_new(heads, cursors)),
    )
}

/// Whether the project was never scanned.
pub open spec fn never_scanned(s: StoreModel, path: Seq<char>) -> bool {
    s.find_project(path) matches Some(p) ==> p.last_scanned is None
}

/// Whether this is the first look at a project: what happened before is no
/// change, and only the tips are remembered.
pub open spec fn first_meeting(s: StoreModel, id: int, path: Seq<char>) -> bool {
    never_scanned(s, path) && s.refs_of(id).len() == 0
}

/// The branches to take in at a scan.
pub open spec fn planned(
    s: StoreModel,
    id: int,
    path: Seq<char>,
    heads: Seq<(Seq<char>, Seq<char>)>,
) -> Seq<StepModel> {
    if first_meeting(s, id, path) {
        seq![]
    } else {
        steps_of(heads, s.refs_of(id))
    }
}

fn known_tip<'a>(cursors: &'a Vec<RefRow>, branch: &str) -> (r: Option<&'a String>)
    ensures
        r is Some <==> cursor_of(order::views(cursors@), branch@) is Some,
        r matches Some(sha) ==> cursor_of(order::views(cursors@), branch@) == Some(sha@),
{
    let test = |row: &RefRow| -> (r: bool)
        ensures r == (row.name@ == branch@)
    { text::same(row.name.as_str(), branch) };
    match order::find(cursors, test, Ghost(tip_named(branch@))) {
        Some(i) => Some(&cursors[i].sha),
        None => None,
    }
}

fn is_first_meeting(store: &Store, id: i64, path: &str) -> (r: bool)
    ensures
        r == first_meeting(store@, id as int, path@),
{
    let never = match store.find_project(path) {
        Some(p) => p.last_scanned.is_none(),
        None => true,
    };
    let cursors = store.refs(id);
    assert(order::views(cursors@).len() == cursors@.len());
    never && cursors.len() == 0
}

/// The branches to take in that were there and have moved.
fn moved_steps(heads: &Vec<(String, String)>, cursors: &Vec<RefRow>, known: &Vec<String>) -> (r: Vec<
    BranchStep,
>)
    ensures
        order::views(r@) == git::pairs(heads@).filter(
            is_moved(order::views(cursors@)),
        ).map_values(step_for(false, text::texts(known@))),
{
    let ghost all = git::pairs(heads@);
    let ghost p = is_moved(order::views(cursors@));
    let ghost f = step_for(false, text::texts(known@));
    let mut r: Vec<BranchStep> = Vec::new();
    let mut i: usize = 0;
    proof {
        order::lemma_filter_none(all, p);
        assert(order::views(r@) =~= all.take(0).filter(p).map_values(f));
    }
    while i < heads.len()
        invariant
            i <= heads.len(),
            all == git::pairs(heads@),
            p == is_moved(order::views(cursors@)),
            f == step_for(false, text::texts(known@)),
            order::views(r@) == all.take(i as int).filter(p).map_values(f),
        decreases heads.len() - i,
    {
        let ghost done = order::views(r@);
        proof {
            order::lemma_filter_step(all, i as int, p);
            assert(all[i as int] == (heads@[i as int].0@, heads@[i as int].1@));
        }
        match known_tip(cursors, heads[i].0.as_str()) {
            Some(sha) => {
                if !text::same(sha.as_str(), heads[i].1.as_str()) {
                    let step = BranchStep {
                        branch: heads[i].0.clone(),
                        sha: heads[i].1.clone(),
                        created: false,
                        exclude: text::copy_list(known),
                    };
                    r.push(step);
                    assert(order::views(r@) =~= done.push(step@));
                    assert(order::views(r@) =~= all.take(i + 1).filter(p).map_values(f));
                }
            },
            None => {},
        }
        i += 1;
    }
    assert(all.take(i as int) =~= all);
    r
}

/// The new branches to take in.
fn created_steps(heads: &Vec<(String, String)>, cursors: &Vec<RefRow>, known: &Vec<String>) -> (r: Vec<
    BranchStep,
>)
    ensures
        order::views(r@) == git::pairs(heads@).filter(
            is_created(order::views(cursors@)),
        ).map_values(step_for(true, text::texts(known@))),
{
    let ghost all = git::pairs(heads@);
    let ghost p = is_created(order::views(cursors@));
    let ghost f = step_for(true, text::texts(known@));
    let mut r: Vec<BranchStep> = Vec::new();
    let mut i: usize = 0;
    proof {
        order::lemma_filter_none(all, p);
        assert(order::views(r@) =~= all.take(0).filter(p).map_values(f));
    }
    while i < heads.len()
        invariant
            i <= heads.len(),
            all == git::pairs(heads@),
            p == is_created(order::views(cursors@)),
            f == step_for(true, text::texts(known@)),
            order::views(r@) == all.take(i as int).filter(p).map_values(f),
        decreases heads.len() - i,
    {
        let ghost done = order::views(r@);
        proof {
            order::lemma_filter_step(all, i as int, p);
            assert(all[i as int] == (heads@[i as int].0@, heads@[i as int].1@));
        }
        if known_tip(cursors, heads[i].0.as_str()).is_none() {
            let step = BranchStep {
                branch: heads[i].0.clone(),
                sha: heads[i].1.clone(),
                created: true,
                exclude: text::copy_list(known),
            };
            r.push(step);
            assert(order::views(r@) =~= done.push(step@));
            assert(order::views(r@) =~= all.take(i + 1).filter(p).map_values(f));
        }
        i += 1;
    }
    assert(all.take(i as int) =~= all);
    r
}

/// The tips that are known.
fn tips(cursors: &Vec<RefRow>) -> (r: Vec<String>)
    ensures
        text::texts(r@) == known_tips(order::views(cursors@)),
{
    let ghost all = known_tips(order::views(cursors@));
    let mut r: Vec<String> = Vec::new();
    let mut i: usize = 0;
    assert(text::texts(r@) =~= all.take(0));
    while i < cursors.len()
        invariant
            i <= cursors.len(),
            all == known_tips(order::views(cursors@)),
            text::texts(r@) == all.take(i as int),
        decreases cursors.len() - i,
    {
        let ghost done = text::texts(r@);
        r.push(cursors[i].sha.clone());
        assert(text::texts(r@) =~= done.push(cursors@[i as int].sha@));
        assert(all.take(i + 1) =~= all.take(i as int).push(all[i as int]));
        i += 1;
    }
    assert(all.take(i as int) =~= all);
    r
}

/// The tips that are known to new branches.
fn tips_for_new(heads: &Vec<(String, String)>, cursors: &Vec<RefRow>) -> (r: Vec<String>)
    ensures
        text::texts(r@) == known_to_new(git::pairs(heads@), order::views(cursors@)),
{
    let ghost all = git::pairs(heads@);
    let ghost p = is_existing(order::views(cursors@));
    let mut r = tips(cursors);
    let ghost front = text::texts(r@);
    let mut i: usize = 0;
    proof {
        order::lemma_filter_none(all, p);
        assert(text::texts(r@) =~= front + all.take(0).filter(p).map_values(sha_of()));
    }
    while i < heads.len()
        invariant
            i <= heads.len(),
            all == git::pairs(heads@),
            p == is_existing(order::views(cursors@)),
            text::texts(r@) == front + all.take(i as int).filter(p).map_values(sha_of()),
        decreases heads.len() - i,
    {
        let ghost done = text::texts(r@);
        let ghost kept = all.take(i as int).filter(p);
        proof {
            order::lemma_filter_step(all, i as int, p);
            assert(all[i as int] == (heads@[i as int].0@, heads@[i as int].1@));
        }
        if known_tip(cursors, heads[i].0.as_str()).is_some() {
            r.push(heads[i].1.clone());
            assert(text::texts(r@) =~= done.push(heads@[i as int].1@));
            assert(kept.push(all[i as int]).map_values(sha_of()) =~= kept.map_values(
                sha_of(),
            ).push(heads@[i as int].1@));
            assert(text::texts(r@) =~= front + all.take(i + 1).filter(p).map_values(sha_of()));
        }
        i += 1;
    }
    assert(all.take(i as int) =~= all);
    r
}

/// The branches to take in: first those that were there, then the new ones.
fn steps(heads: &Vec<(String, String)>, cursors: &Vec<RefRow>) -> (r: Vec<BranchStep>)
    ensures
        order::views(r@) == steps_of(git::pairs(heads@), order::views(cursors@)),
{
    let known = tips(cursors);
    let mut r = moved_steps(heads, cursors, &known);
    let known = tips_for_new(heads, cursors);
    let created = created_steps(heads, cursors, &known);
    let ghost front = order::views(r@);
    let ghost all = order::views(created@);
    let mut i: usize = 0;
    assert(front =~= front + all.take(0));
    while i < created.len()
        invariant
            i <= created.len(),
            all == order::views(created@),
            order::views(r@) == front + all.take(i as int),
        decreases created.len() - i,
    {
        let ghost done = order::views(r@);
        let step = BranchStep {
            branch: created[i].branch.clone(),
            sha: created[i].sha.clone(),
            created: created[i].created,
            exclude: text::copy_list(&created[i].exclude),
        };
        r.push(step);
        assert(step@ == created@[i as int]@);
        assert(order::views(r@) =~= done.push(step@));
        assert(all.take(i + 1) =~= all.take(i as int).push(all[i as int]));
        assert(order::views(r@) =~= front + all.take(i + 1));
        i += 1;
    }
    assert(all.take(i as int) =~= all);
    r
}

/// The branches to take in, given the heads of a repository. For each of them
/// git is asked for the commits that can be reached from its tip and from
/// none of the excluded ones.
pub fn plan(store: &Store, id: i64, path: &str, heads: &Vec<(String, String)>) -> (r: Vec<BranchStep>)
    ensures
        order::views(r@) == planned(store@, id as int, path@, git::pairs(heads@)),
{
    if is_first_meeting(store, id, path) {
        let none: Vec<BranchStep> = Vec::new();
        assert(order::views(none@) =~= seq![]);
        return none;
    }
    let cursors = store.refs(id);
    steps(heads, &cursors)
}

// --- what to write -------------------------------------------------------

/// Writing an event, whether or not it was passed over.
pub open spec fn noted(r: (StoreModel, Result<bool, StoreError>)) -> (
    StoreModel,
    Result<(), Failure>,
) {
    match r.1 {
        Ok(_) => (r.0, Ok(())),
        Err(e) => (r.0, Err(Failure::Store(e))),
    }
}

/// Setting a tip.
pub open spec fn marked(r: (StoreModel, Result<(), StoreError>)) -> (
    StoreModel,
    Result<(), Failure>,
) {
    match r.1 {
        Ok(_) => (r.0, Ok(())),
        Err(e) => (r.0, Err(Failure::Store(e))),
    }
}

/// Writing commits of a branch, in the given order.
pub open spec fn commits_recorded(
    s: StoreModel,
    id: int,
    now: i64,
    branch: Seq<char>,
    commits: Seq<CommitModel>,
) -> (StoreModel, Result<(), Failure>)
    decreases commits.len(),
{
    if commits.len() == 0 {
        (s, Ok(()))
    } else {
        let (t, r) = commits_recorded(s, id, now, branch, commits.drop_last());
        let c = commits.last();
        match r {
            Err(e) => (t, Err(e)),
            Ok(_) => noted(
                t.insert_event(id, "commit"@, now, Some(c.sha), commit_payload(c, branch)),
            ),
        }
    }
}

/// Taking in a branch, given its new commits, newest first. A new branch is an
/// event of its own, before its commits; the commits are written oldest first;
/// then the tip is remembered. Where git failed, nothing follows the event.
pub open spec fn step_recorded(
    s: StoreModel,
    id: int,
    now: i64,
    step: StepModel,
    log: Result<Seq<CommitModel>, Seq<char>>,
) -> (StoreModel, Result<(), Failure>) {
    let (t, r) = if step.created {
        noted(
            s.insert_event(
                id,
                "branch_created"@,
                now,
                None,
                branch_payload(step.branch, step.sha),
            ),
        )
    } else {
        (s, Ok(()))
    };
    match r {
        Err(e) => (t, Err(e)),
        Ok(_) => match log {
            Err(text) => (t, Err(Failure::Git(text))),
            Ok(commits) => {
                let (u, r) = commits_recorded(t, id, now, step.branch, commits.reverse());
                match r {
                    Err(e) => (u, Err(e)),
                    Ok(_) => marked(u.set_ref(id, step.branch, step.sha)),
                }
            },
        },
    }
}

/// Taking in branches, one after the other, until one fails.
pub open spec fn steps_recorded(
    s: StoreModel,
    id: int,
    now: i64,
    steps: Seq<StepModel>,
    logs: Seq<Result<Seq<CommitModel>, Seq<char>>>,
) -> (StoreModel, Result<(), Failure>)
    decreases steps.len(),
{
    if steps.len() == 0 {
        (s, Ok(()))
    } else {
        let (t, r) = steps_recorded(s, id, now, steps.drop_last(), logs);
        match r {
            Err(e) => (t, Err(e)),
            Ok(_) => step_recorded(t, id, now, steps.last(), logs[steps.len() - 1]),
        }
    }
}

/// The name of a branch.
pub open spec fn branch_of() -> spec_fn((Seq<char>, Seq<char>)) -> Seq<char> {
    |head: (Seq<char>, Seq<char>)| head.0
}

/// Branches that are no longer there.
pub open spec fn is_gone(heads: Seq<(Seq<char>, Seq<char>)>) -> spec_fn(RefModel) -> bool {
    |r: RefModel| !heads.map_values(branch_of()).contains(r.name)
}

/// Dropping branches that are no longer there, each with an event.
pub open spec fn gone_recorded(s: StoreModel, id: int, now: i64, gone: Seq<RefModel>) -> (
    StoreModel,
    Result<(), Failure>,
)
    decreases gone.len(),
{
    if gone.len() == 0 {
        (s, Ok(()))
    } else {
        let (t, r) = gone_recorded(s, id, now, gone.drop_last());
        let row = gone.last();
        match r {
            Err(e) => (t, Err(e)),
            Ok(_) => {
                let (u, r) = noted(
                    t.insert_event(
                        id,
                        "branch_deleted"@,
                        now,
                        None,
                        branch_payload(row.name, row.sha),
                    ),
                );
                match r {
                    Err(e) => (u, Err(e)),
                    Ok(_) => (u.delete_ref(id, row.name), Ok(())),
                }
            },
        }
    }
}

/// Taking in the branches of a repository: those that have moved, the new
/// ones, then those that are gone.
pub open spec fn branches_recorded(
    s: StoreModel,
    id: int,
    now: i64,
    heads: Seq<(Seq<char>, Seq<char>)>,
    logs: Seq<Result<Seq<CommitModel>, Seq<char>>>,
) -> (StoreModel, Result<(), Failure>) {
    let cursors = s.refs_of(id);
    let (t, r) = steps_recorded(s, id, now, steps_of(heads, cursors), logs);
    match r {
        Err(e) => (t, Err(e)),
        Ok(_) => gone_recorded(t, id, now, cursors.filter(is_gone(heads))),
    }
}

/// Remembering the tips of all branches.
pub open spec fn tips_remembered(s: StoreModel, id: int, heads: Seq<(Seq<char>, Seq<char>)>) -> (
    StoreModel,
    Result<(), Failure>,
)
    decreases heads.len(),
{
    if heads.len() == 0 {
        (s, Ok(()))
    } else {
        let (t, r) = tips_remembered(s, id, heads.drop_last());
        match r {
            Err(e) => (t, Err(e)),
            Ok(_) => marked(t.set_ref(id, heads.last().0, heads.last().1)),
        }
    }
}

/// Whether the current branch of a project that was scanned before is another
/// one: from which to which.
pub open spec fn switched(s: StoreModel, path: Seq<char>, head_branch: Option<Seq<char>>) -> Option<
    (Seq<char>, Seq<char>),
> {
    match s.find_project(path) {
        Some(p) => match (p.last_scanned, p.head_branch, head_branch) {
            (Some(_), Some(from), Some(to)) => if from != to {
                Some((from, to))
            } else {
                None
            },
            _ => None,
        },
        None => None,
    }
}

/// Writing a checkout, if there was one.
pub open spec fn checkout_recorded(
    s: StoreModel,
    id: int,
    now: i64,
    change: Option<(Seq<char>, Seq<char>)>,
) -> (StoreModel, Result<(), Failure>) {
    match change {
        Some((from, to)) => noted(
            s.insert_event(id, "checkout"@, now, None, checkout_payload(from, to)),
        ),
        None => (s, Ok(())),
    }
}

/// What git says of a repository.
pub struct AnswersModel {
    pub heads: Result<Seq<(Seq<char>, Seq<char>)>, Seq<char>>,
    pub logs: Seq<Result<Seq<CommitModel>, Seq<char>>>,
    pub head_branch: Option<Seq<char>>,
    pub dirty: Result<(nat, Seq<Seq<char>>), Seq<char>>,
}

/// Scanning a project: branches, the current branch, uncommitted files. What
/// was written before a failure stays.
pub open spec fn scanned(s: StoreModel, id: int, path: Seq<char>, now: i64, answers: AnswersModel) -> (
    StoreModel,
    Result<(), Failure>,
) {
    match answers.heads {
        Err(text) => (s, Err(Failure::Git(text))),
        Ok(heads) => {
            let (t, r) = if first_meeting(s, id, path) {
                tips_remembered(s, id, heads)
            } else {
                branches_recorded(s, id, now, heads, answers.logs)
            };
            match r {
                Err(e) => (t, Err(e)),
                Ok(_) => {
                    let change = switched(s, path, answers.head_branch);
                    let (u, r) = checkout_recorded(t, id, now, change);
                    match r {
                        Err(e) => (u, Err(e)),
                        Ok(_) => match answers.dirty {
                            Err(text) => (u, Err(Failure::Git(text))),
                            Ok((count, sample)) => (
                                u.save_snapshot(
                                    id,
                                    SnapshotModel {
                                        head_branch: answers.head_branch,
                                        dirty_files: time::signed(count),
                                        dirty_sample: sample,
                                    },
                                    now,
                                ),
                                Ok(()),
                            ),
                        },
                    }
                },
            }
        },
    }
}

/// Whether there is an answer for every branch to take in, up to the first
/// that failed.
pub open spec fn answered(steps: nat, logs: Seq<Result<Seq<CommitModel>, Seq<char>>>) -> bool {
    logs.len() >= steps || (logs.len() > 0 && logs.last() is Err)
}

/// What git says of a repository.
#[derive(Debug)]
pub struct Answers {
    /// The branches and their tips.
    pub heads: GitResult<Vec<(String, String)>>,
    /// For each branch to take in, its new commits, newest first; up to the
    /// first that failed.
    pub logs: Vec<GitResult<Vec<Commit>>>,
    /// The current branch.
    pub head_branch: Option<String>,
    /// How many files are uncommitted, and some of them.
    pub dirty: GitResult<(usize, Vec<String>)>,
}

/// What git says of a branch's commits.
pub open spec fn log_view(log: GitResult<Vec<Commit>>) -> Result<Seq<CommitModel>, Seq<char>> {
    match log {
        Ok(list) => Ok(git::commits_view(list@)),
        Err(text) => Err(text@),
    }
}

/// What git says of the commits of branches.
pub open spec fn log_views(logs: Seq<GitResult<Vec<Commit>>>) -> Seq<
    Result<Seq<CommitModel>, Seq<char>>,
> {
    logs.map_values(|log: GitResult<Vec<Commit>>| log_view(log))
}

impl View for Answers {
    type V = AnswersModel;

    open spec fn view(&self) -> AnswersModel {
        AnswersModel {
            heads: match self.heads {
                Ok(list) => Ok(git::pairs(list@)),
                Err(text) => Err(text@),
            },
            logs: log_views(self.logs@),
            head_branch: text::text_opt(self.head_branch),
            dirty: match self.dirty {
                Ok((count, sample)) => Ok((count as nat, text::texts(sample@))),
                Err(text) => Err(text@),
            },
        }
    }
}

/// Whether the payloads of a branch's commits are kept as they are.
pub open spec fn commits_are_kept(commits: Seq<CommitModel>, branch: Seq<char>) -> bool {
    forall|i: int|
        0 <= i < commits.len() ==> json::is_kept(commit_payload(#[trigger] commits[i], branch))
}

/// Whether the payloads that taking in a branch writes are kept as they are.
pub open spec fn step_is_kept(step: StepModel, log: Result<Seq<CommitModel>, Seq<char>>) -> bool {
    &&& step.created ==> json::is_kept(branch_payload(step.branch, step.sha))
    &&& log matches Ok(commits) ==> commits_are_kept(commits, step.branch)
}

/// Whether the payloads that taking in branches writes are kept as they are.
pub open spec fn steps_are_kept(
    steps: Seq<StepModel>,
    logs: Seq<Result<Seq<CommitModel>, Seq<char>>>,
) -> bool {
    forall|k: int| 0 <= k < steps.len() ==> step_is_kept(#[trigger] steps[k], logs[k])
}

/// Whether the payloads that dropping branches writes are kept as they are.
pub open spec fn gone_are_kept(gone: Seq<RefModel>) -> bool {
    forall|k: int|
        0 <= k < gone.len() ==> json::is_kept(
            branch_payload((#[trigger] gone[k]).name, gone[k].sha),
        )
}

/// Whether the payloads that a scan writes are kept as they are, so that they
/// are read back.
pub open spec fn scan_is_kept(s: StoreModel, id: int, path: Seq<char>, answers: AnswersModel) -> bool {
    &&& answers.heads matches Ok(heads) ==> !first_meeting(s, id, path) ==> steps_are_kept(
        steps_of(heads, s.refs_of(id)),
        answers.logs,
    ) && gone_are_kept(s.refs_of(id).filter(is_gone(heads)))
    &&& switched(s, path, answers.head_branch) matches Some((from, to)) ==> json::is_kept(
        checkout_payload(from, to),
    )
}

/// Writes an event that cannot be passed over.
fn note(store: &mut Store, id: i64, kind: &str, now: i64, sha: Option<&str>, payload: &Value) -> (r:
    Result<(), ScanError>)
    requires
        old(store)@.wf(),
    ensures
        final(store)@.wf(),
        final(store)@.events.len() >= old(store)@.events.len(),
        final(store)@ == noted(
            old(store)@.insert_event(
                id as int,
                kind@,
                now,
                store::str_opt(sha),
                json::json_view(*payload),
            ),
        ).0,
        ended(
            r,
            noted(
                old(store)@.insert_event(
                    id as int,
                    kind@,
                    now,
                    store::str_opt(sha),
                    json::json_view(*payload),
                ),
            ).1,
        ),
        json::is_plain(json::json_view(*payload), json::MAX_DEPTH as nat) ==> json::is_kept(
            json::json_view(*payload),
        ),
{
    match store.insert_event(id, kind, now, sha, payload) {
        Ok(_) => Ok(()),
        Err(e) => Err(ScanError::Store(e)),
    }
}

/// Sets a tip.
fn mark(store: &mut Store, id: i64, branch: &str, sha: &str) -> (r: Result<(), ScanError>)
    requires
        old(store)@.wf(),
    ensures
        final(store)@.wf(),
        final(store)@.events == old(store)@.events,
        final(store)@ == marked(old(store)@.set_ref(id as int, branch@, sha@)).0,
        ended(r, marked(old(store)@.set_ref(id as int, branch@, sha@)).1),
{
    match store.set_ref(id, branch, sha) {
        Ok(_) => Ok(()),
        Err(e) => Err(ScanError::Store(e)),
    }
}

/// Writes the commits of a branch, oldest first.
fn record_commits(
    store: &mut Store,
    id: i64,
    now: i64,
    branch: &str,
    commits: &Vec<Commit>,
) -> (r: Result<(), ScanError>)
    requires
        old(store)@.wf(),
    ensures
        final(store)@.wf(),
        final(store)@.events.len() >= old(store)@.events.len(),
        final(store)@ == commits_recorded(
            old(store)@,
            id as int,
            now,
            branch@,
            git::commits_view(commits@).reverse(),
        ).0,
        ended(
            r,
            commits_recorded(
                old(store)@,
                id as int,
                now,
                branch@,
                git::commits_view(commits@).reverse(),
            ).1,
        ),
        r is Ok ==> commits_are_kept(git::commits_view(commits@), branch@),
{
    let ghost all = git::commits_view(commits@).reverse();
    let ghost before = store@;
    let mut i: usize = 0;
    while i < commits.len()
        invariant
            i <= commits.len(),
            all == git::commits_view(commits@).reverse(),
            all.len() == commits@.len(),
            before == old(store)@,
            store@.wf(),
            store@.events.len() >= before.events.len(),
            commits_recorded(before, id as int, now, branch@, all.take(i as int)) == (
                store@,
                Ok::<(), Failure>(()),
            ),
            forall|j: int|
                0 <= j < i ==> json::is_kept(commit_payload(#[trigger] all[j], branch@)),
        decreases commits.len() - i,
    {
        let commit = &commits[commits.len() - 1 - i];
        proof {
            assert(all.take(i + 1).drop_last() =~= all.take(i as int));
            assert(all.take(i + 1).last() == commit@);
        }
        let payload = commit_value(commit, branch);
        proof {
            commit_payloads_are_plain(commit@, branch@);
        }
        let r = note(store, id, "commit", now, Some(commit.sha.as_str()), &payload);
        match r {
            Ok(_) => {},
            Err(e) => {
                proof {
                    lemma_commits_fail(before, id as int, now, branch@, all, i + 1);
                }
                return Err(e);
            },
        }
        i += 1;
    }
    proof {
        let given = git::commits_view(commits@);
        assert(all.take(i as int) =~= all);
        assert forall|j: int| 0 <= j < given.len() implies json::is_kept(
            commit_payload(#[trigger] given[j], branch@),
        ) by {
            assert(given[j] == all[all.len() - 1 - j]);
        }
    }
    Ok(())
}

/// A failure at one of the commits is how writing them all ends.
proof fn lemma_commits_fail(
    s: StoreModel,
    id: int,
    now: i64,
    branch: Seq<char>,
    commits: Seq<CommitModel>,
    i: int,
)
    requires
        0 <= i <= commits.len(),
        commits_recorded(s, id, now, branch, commits.take(i)).1 is Err,
    ensures
        commits_recorded(s, id, now, branch, commits) == commits_recorded(
            s,
            id,
            now,
            branch,
            commits.take(i),
        ),
    decreases commits.len() - i,
{
    if i < commits.len() {
        assert(commits.take(i + 1).drop_last() =~= commits.take(i));
        lemma_commits_fail(s, id, now, branch, commits, i + 1);
    } else {
        assert(commits.take(i) =~= commits);
    }
}

/// Takes in a branch.
fn record_step(
    store: &mut Store,
    id: i64,
    now: i64,
    step: &BranchStep,
    log: &GitResult<Vec<Commit>>,
) -> (r: Result<(), ScanError>)
    requires
        old(store)@.wf(),
    ensures
        final(store)@.wf(),
        final(store)@.events.len() >= old(store)@.events.len(),
        final(store)@ == step_recorded(old(store)@, id as int, now, step@, log_view(*log)).0,
        ended(r, step_recorded(old(store)@, id as int, now, step@, log_view(*log)).1),
        r is Ok ==> step_is_kept(step@, log_view(*log)),
{
    if step.created {
        let payload = branch_value(step.branch.as_str(), step.sha.as_str());
        proof {
            branch_payloads_are_plain(step.branch@, step.sha@);
        }
        match note(store, id, "branch_created", now, None, &payload) {
            Ok(_) => {},
            Err(e) => {
                return Err(e);
            },
        }
    }
    match log {
        Ok(commits) => {
            match record_commits(store, id, now, step.branch.as_str(), commits) {
                Ok(_) => {},
                Err(e) => {
                    return Err(e);
                },
            }
            mark(store, id, step.branch.as_str(), step.sha.as_str())
        },
        Err(text) => Err(ScanError::Git(text.clone())),
    }
}

/// A failure at one of the branches is how taking them all in ends.
proof fn lemma_steps_fail(
    s: StoreModel,
    id: int,
    now: i64,
    steps: Seq<StepModel>,
    logs: Seq<Result<Seq<CommitModel>, Seq<char>>>,
    i: int,
)
    requires
        0 <= i <= steps.len(),
        steps_recorded(s, id, now, steps.take(i), logs).1 is Err,
    ensures
        steps_recorded(s, id, now, steps, logs) == steps_recorded(s, id, now, steps.take(i), logs),
    decreases steps.len() - i,
{
    if i < steps.len() {
        assert(steps.take(i + 1).drop_last() =~= steps.take(i));
        lemma_steps_fail(s, id, now, steps, logs, i + 1);
    } else {
        assert(steps.take(i) =~= steps);
    }
}

/// Takes in branches, one after the other, until one fails.
fn record_steps(
    store: &mut Store,
    id: i64,
    now: i64,
    steps: &Vec<BranchStep>,
    logs: &Vec<GitResult<Vec<Commit>>>,
) -> (r: Result<(), ScanError>)
    requires
        old(store)@.wf(),
        answered(steps@.len(), log_views(logs@)),
    ensures
        final(store)@.wf(),
        final(store)@.events.len() >= old(store)@.events.len(),
        final(store)@ == steps_recorded(
            old(store)@,
            id as int,
            now,
            order::views(steps@),
            log_views(logs@),
        ).0,
        ended(
            r,
            steps_recorded(
                old(store)@,
                id as int,
                now,
                order::views(steps@),
                log_views(logs@),
            ).1,
        ),
        r is Ok ==> steps_are_kept(order::views(steps@), log_views(logs@)),
{
    let ghost all = order::views(steps@);
    let ghost answers = log_views(logs@);
    let ghost before = store@;
    let mut i: usize = 0;
    while i < steps.len()
        invariant
            i <= steps.len(),
            all == order::views(steps@),
            all.len() == steps@.len(),
            answers == log_views(logs@),
            answers.len() == logs@.len(),
            answered(steps@.len(), answers),
            before == old(store)@,
            store@.wf(),
            store@.events.len() >= before.events.len(),
            i > 0 ==> i <= logs@.len() && answers[i - 1] is Ok,
            steps_recorded(before, id as int, now, all.take(i as int), answers) == (
                store@,
                Ok::<(), Failure>(()),
            ),
            forall|k: int| 0 <= k < i ==> step_is_kept(#[trigger] all[k], answers[k]),
        decreases steps.len() - i,
    {
        proof {
            assert(all.take(i + 1).drop_last() =~= all.take(i as int));
            assert(all.take(i + 1).last() == steps@[i as int]@);
            assert(i < logs@.len());
            assert(answers[i as int] == log_view(logs@[i as int]));
        }
        match record_step(store, id, now, &steps[i], &logs[i]) {
            Ok(_) => {},
            Err(e) => {
                proof {
                    lemma_steps_fail(before, id as int, now, all, answers, i + 1);
                }
                return Err(e);
            },
        }
        i += 1;
    }
    assert(all.take(i as int) =~= all);
    Ok(())
}

/// The branches that are no longer there.
fn gone(cursors: &Vec<RefRow>, heads: &Vec<(String, String)>) -> (r: Vec<RefRow>)
    ensures
        order::views(r@) == order::views(cursors@).filter(is_gone(git::pairs(heads@))),
{
    let test = |row: &RefRow| -> (r: bool)
        ensures r == !git::pairs(heads@).map_values(branch_of()).contains(row.name@)
    { !has_branch(heads, row.name.as_str()) };
    order::select(cursors, test, Ghost(is_gone(git::pairs(heads@))))
}

fn has_branch(heads: &Vec<(String, String)>, branch: &str) -> (r: bool)
    ensures
        r == git::pairs(heads@).map_values(branch_of()).contains(branch@),
{
    let ghost names = git::pairs(heads@).map_values(branch_of());
    let mut i: usize = 0;
    while i < heads.len()
        invariant
            i <= heads.len(),
            names == git::pairs(heads@).map_values(branch_of()),
            names.len() == heads@.len(),
            forall|j: int| 0 <= j < i ==> names[j] != branch@,
        decreases heads.len() - i,
    {
        assert(names[i as int] == heads@[i as int].0@);
        if text::same(heads[i].0.as_str(), branch) {
            return true;
        }
        i += 1;
    }
    false
}

/// A failure at one of the branches is how dropping them all ends.
proof fn lemma_gone_fail(s: StoreModel, id: int, now: i64, gone: Seq<RefModel>, i: int)
    requires
        0 <= i <= gone.len(),
        gone_recorded(s, id, now, gone.take(i)).1 is Err,
    ensures
        gone_recorded(s, id, now, gone) == gone_recorded(s, id, now, gone.take(i)),
    decreases gone.len() - i,
{
    if i < gone.len() {
        assert(gone.take(i + 1).drop_last() =~= gone.take(i));
        lemma_gone_fail(s, id, now, gone, i + 1);
    } else {
        assert(gone.take(i) =~= gone);
    }
}

/// Drops branches that are no longer there.
fn record_gone(store: &mut Store, id: i64, now: i64, gone: &Vec<RefRow>) -> (r: Result<
    (),
    ScanError,
>)
    requires
        old(store)@.wf(),
    ensures
        final(store)@.wf(),
        final(store)@.events.len() >= old(store)@.events.len(),
        final(store)@ == gone_recorded(old(store)@, id as int, now, order::views(gone@)).0,
        ended(r, gone_recorded(old(store)@, id as int, now, order::views(gone@)).1),
        r is Ok ==> gone_are_kept(order::views(gone@)),
{
    let ghost all = order::views(gone@);
    let ghost before = store@;
    let mut i: usize = 0;
    while i < gone.len()
        invariant
            i <= gone.len(),
            all == order::views(gone@),
            all.len() == gone@.len(),
            before == old(store)@,
            store@.wf(),
            store@.events.len() >= before.events.len(),
            gone_recorded(before, id as int, now, all.take(i as int)) == (
                store@,
                Ok::<(), Failure>(()),
            ),
            forall|k: int|
                0 <= k < i ==> json::is_kept(branch_payload((#[trigger] all[k]).name, all[k].sha)),
        decreases gone.len() - i,
    {
        proof {
            assert(all.take(i + 1).drop_last() =~= all.take(i as int));
            assert(all.take(i + 1).last() == gone@[i as int]@);
        }
        let payload = branch_value(gone[i].name.as_str(), gone[i].sha.as_str());
        proof {
            branch_payloads_are_plain(gone@[i as int].name@, gone@[i as int].sha@);
        }
        match note(store, id, "branch_deleted", now, None, &payload) {
            Ok(_) => {},
            Err(e) => {
                proof {
                    lemma_gone_fail(before, id as int, now, all, i + 1);
                }
                return Err(e);
            },
        }
        store.delete_ref(id, gone[i].name.as_str());
        i += 1;
    }
    assert(all.take(i as int) =~= all);
    Ok(())
}

/// Takes in the branches of a repository, and tells how many events were
/// written.
pub fn record_branches(
    store: &mut Store,
    id: i64,
    now: i64,
    heads: &Vec<(String, String)>,
    logs: &Vec<GitResult<Vec<Commit>>>,
) -> (r: Result<usize, ScanError>)
    requires
        old(store)@.wf(),
        answered(
            steps_of(git::pairs(heads@), old(store)@.refs_of(id as int)).len(),
            log_views(logs@),
        ),
    ensures
        final(store)@.wf(),
        final(store)@.events.len() >= old(store)@.events.len(),
        final(store)@ == branches_recorded(
            old(store)@,
            id as int,
            now,
            git::pairs(heads@),
            log_views(logs@),
        ).0,
        match branches_recorded(
            old(store)@,
            id as int,
            now,
            git::pairs(heads@),
            log_views(logs@),
        ).1 {
            Ok(_) => r matches Ok(n) && n == final(store)@.events.len() - old(store)@.events.len(),
            Err(e) => r matches Err(f) && f@ == e,
        },
        r is Ok ==> steps_are_kept(
            steps_of(git::pairs(heads@), old(store)@.refs_of(id as int)),
            log_views(logs@),
        ) && gone_are_kept(old(store)@.refs_of(id as int).filter(is_gone(git::pairs(heads@)))),
{
    let before = store.events.len();
    assert(store@.events.len() == store.events@.len());
    let cursors = store.refs(id);
    let steps = steps(heads, &cursors);
    assert(order::views(steps@).len() == steps@.len());
    let gone = gone(&cursors, heads);
    match record_steps(store, id, now, &steps, logs) {
        Ok(_) => {},
        Err(e) => {
            return Err(e);
        },
    }
    match record_gone(store, id, now, &gone) {
        Ok(_) => {},
        Err(e) => {
            return Err(e);
        },
    }
    assert(store@.events.len() == store.events@.len());
    Ok(store.events.len() - before)
}

/// Remembers the tips of all branches.
fn remember_tips(store: &mut Store, id: i64, heads: &Vec<(String, String)>) -> (r: Result<
    (),
    ScanError,
>)
    requires
        old(store)@.wf(),
    ensures
        final(store)@.wf(),
        final(store)@.events == old(store)@.events,
        final(store)@ == tips_remembered(old(store)@, id as int, git::pairs(heads@)).0,
        ended(r, tips_remembered(old(store)@, id as int, git::pairs(heads@)).1),
{
    let ghost all = git::pairs(heads@);
    let ghost before = store@;
    let mut i: usize = 0;
    while i < heads.len()
        invariant
            i <= heads.len(),
            all == git::pairs(heads@),
            all.len() == heads@.len(),
            before == old(store)@,
            store@.wf(),
            store@.events == before.events,
            tips_remembered(before, id as int, all.take(i as int)) == (
                store@,
                Ok::<(), Failure>(()),
            ),
        decreases heads.len() - i,
    {
        proof {
            assert(all.take(i + 1).drop_last() =~= all.take(i as int));
            assert(all.take(i + 1).last() == (heads@[i as int].0@, heads@[i as int].1@));
        }
        match mark(store, id, heads[i].0.as_str(), heads[i].1.as_str()) {
            Ok(_) => {},
            Err(e) => {
                proof {
                    lemma_tips_fail(before, id as int, all, i + 1);
                }
                return Err(e);
            },
        }
        i += 1;
    }
    assert(all.take(i as int) =~= all);
    Ok(())
}

/// A failure at one of the tips is how remembering them all ends.
proof fn lemma_tips_fail(s: StoreModel, id: int, heads: Seq<(Seq<char>, Seq<char>)>, i: int)
    requires
        0 <= i <= heads.len(),
        tips_remembered(s, id, heads.take(i)).1 is Err,
    ensures
        tips_remembered(s, id, heads) == tips_remembered(s, id, heads.take(i)),
    decreases heads.len() - i,
{
    if i < heads.len() {
        assert(heads.take(i + 1).drop_last() =~= heads.take(i));
        lemma_tips_fail(s, id, heads, i + 1);
    } else {
        assert(heads.take(i) =~= heads);
    }
}

/// Whether the current branch is another one: from which to which.
fn switch(store: &Store, path: &str, head_branch: &Option<String>) -> (r: Option<(String, String)>)
    ensures
        r is Some <==> switched(store@, path@, text::text_opt(*head_branch)) is Some,
        r matches Some(change) ==> switched(store@, path@, text::text_opt(*head_branch)) == Some(
            (change.0@, change.1@),
        ),
{
    match store.find_project(path) {
        Some(p) => match (p.last_scanned, &p.head_branch, head_branch) {
            (Some(_), Some(from), Some(to)) => if text::same(from.as_str(), to.as_str()) {
                None
            } else {
                Some((from.clone(), to.clone()))
            },
            _ => None,
        },
        None => None,
    }
}

/// Takes in what git says of a project.
fn take_in(store: &mut Store, id: i64, path: &str, now: i64, answers: &Answers) -> (r: Result<
    (),
    ScanError,
>)
    requires
        old(store)@.wf(),
        answers.heads matches Ok(heads) ==> answered(
            planned(old(store)@, id as int, path@, git::pairs(heads@)).len(),
            answers@.logs,
        ),
    ensures
        final(store)@.wf(),
        final(store)@.events.len() >= old(store)@.events.len(),
        final(store)@ == scanned(old(store)@, id as int, path@, now, answers@).0,
        ended(r, scanned(old(store)@, id as int, path@, now, answers@).1),
        r is Ok ==> scan_is_kept(old(store)@, id as int, path@, answers@),
{
    let heads = match &answers.heads {
        Ok(heads) => heads,
        Err(text) => {
            return Err(ScanError::Git(text.clone()));
        },
    };
    let change = switch(store, path, &answers.head_branch);
    if is_first_meeting(store, id, path) {
        match remember_tips(store, id, heads) {
            Ok(_) => {},
            Err(e) => {
                return Err(e);
            },
        }
    } else {
        match record_branches(store, id, now, heads, &answers.logs) {
            Ok(_) => {},
            Err(e) => {
                return Err(e);
            },
        }
    }
    match &change {
        Some((from, to)) => {
            let payload = checkout_value(from.as_str(), to.as_str());
            proof {
                checkout_payloads_are_plain(from@, to@);
            }
            match note(store, id, "checkout", now, None, &payload) {
                Ok(_) => {},
                Err(e) => {
                    return Err(e);
                },
            }
        },
        None => {},
    }
    match &answers.dirty {
        Ok((count, sample)) => {
            let snapshot = Snapshot {
                head_branch: text::copy_opt(&answers.head_branch),
                dirty_files: time::to_signed(*count as u64),
                dirty_sample: text::copy_list(sample),
            };
            store.save_snapshot(id, &snapshot, now);
            Ok(())
        },
        Err(text) => Err(ScanError::Git(text.clone())),
    }
}

/// Scans a project, given what git says of it, and tells how many events were
/// written: where it fails, those that were written before. What a scan that
/// does not fail wrote is read back as it was written.
pub fn scan_counted(store: &mut Store, id: i64, path: &str, now: i64, answers: &Answers) -> (r: (
    usize,
    Result<(), ScanError>,
))
    requires
        old(store)@.wf(),
        answers.heads matches Ok(heads) ==> answered(
            planned(old(store)@, id as int, path@, git::pairs(heads@)).len(),
            answers@.logs,
        ),
    ensures
        final(store)@.wf(),
        final(store)@ == scanned(old(store)@, id as int, path@, now, answers@).0,
        r.0 == final(store)@.events.len() - old(store)@.events.len(),
        ended(r.1, scanned(old(store)@, id as int, path@, now, answers@).1),
        r.1 is Ok ==> scan_is_kept(old(store)@, id as int, path@, answers@),
        r.1 is Ok
            && !first_meeting(old(store)@, id as int, path@) ==> scan_laws::tells_scan(
            old(store)@,
            final(store)@,
            id as int,
            path@,
            now,
            answers@.heads->Ok_0,
            answers@,
        ),
{
    let before = store.events.len();
    assert(store@.events.len() == store.events@.len());
    let outcome = take_in(store, id, path, now, answers);
    assert(store@.events.len() == store.events@.len());
    proof {
        if outcome is Ok && !first_meeting(old(store)@, id as int, path@) {
            scan_laws::a_scan_tells_what_is_new(
                old(store)@,
                id as int,
                path@,
                now,
                answers@.heads->Ok_0,
                answers@,
            );
        }
    }
    (store.events.len() - before, outcome)
}

/// Scans a project, given what git says of it, and tells how many events were
/// written.
pub fn scan_project(store: &mut Store, id: i64, path: &str, now: i64, answers: &Answers) -> (r: Result<
    usize,
    ScanError,
>)
    requires
        old(store)@.wf(),
        answers.heads matches Ok(heads) ==> answered(
            planned(old(store)@, id as int, path@, git::pairs(heads@)).len(),
            answers@.logs,
        ),
    ensures
        final(store)@.wf(),
        final(store)@ == scanned(old(store)@, id as int, path@, now, answers@).0,
        match scanned(old(store)@, id as int, path@, now, answers@).1 {
            Ok(_) => r matches Ok(n) && n == final(store)@.events.len() - old(store)@.events.len(),
            Err(e) => r matches Err(f) && f@ == e,
        },
        r is Ok ==> scan_is_kept(old(store)@, id as int, path@, answers@),
        r is Ok
            && !first_meeting(old(store)@, id as int, path@) ==> scan_laws::tells_scan(
            old(store)@,
            final(store)@,
            id as int,
            path@,
            now,
            answers@.heads->Ok_0,
            answers@,
        ),
{
    let (events, outcome) = scan_counted(store, id, path, now, answers);
    match outcome {
        Ok(_) => Ok(events),
        Err(e) => Err(e),
    }
}

// --- projects ------------------------------------------------------------

/// Registering the projects that were found, in order. One that is new is an
/// event, but not at the first run, when all are new.
pub open spec fn registered(s: StoreModel, found: Seq<FoundModel>, now: i64, first_run: bool) -> (
    StoreModel,
    Result<Seq<(Seq<char>, int)>, StoreError>,
)
    decreases found.len(),
{
    if found.len() == 0 {
        (s, Ok(seq![]))
    } else {
        let f = found.last();
        match registered(s, found.drop_last(), now, first_run) {
            (t, Err(e)) => (t, Err(e)),
            (t, Ok(index)) => match t.upsert_project(f.path, f.name, now) {
                (u, Err(e)) => (u, Err(e)),
                (u, Ok((id, created))) => if created && !first_run {
                    match u.insert_event(id, "project_added"@, now, None, path_payload(f.path)) {
                        (v, Err(e)) => (v, Err(e)),
                        (v, Ok(_)) => (v, Ok(index.push((f.path, id)))),
                    }
                } else {
                    (u, Ok(index.push((f.path, id))))
                },
            },
        }
    }
}

/// Whether a path is among those that were found.
pub open spec fn is_present(found: Seq<FoundModel>, path: Seq<char>) -> bool {
    exists|i: int|
        0 <= i < found.len() && discovery::same_path((#[trigger] found[i]).path, path)
}

/// Projects that were there and were not found.
pub open spec fn is_absent(found: Seq<FoundModel>) -> spec_fn(ProjectModel) -> bool {
    |p: ProjectModel| p.removed_at is None && !is_present(found, p.path)
}

/// Marking projects as gone, each with an event.
pub open spec fn departed(s: StoreModel, absent: Seq<ProjectModel>, now: i64) -> (
    StoreModel,
    Result<(), StoreError>,
)
    decreases absent.len(),
{
    if absent.len() == 0 {
        (s, Ok(()))
    } else {
        let p = absent.last();
        match departed(s, absent.drop_last(), now) {
            (t, Err(e)) => (t, Err(e)),
            (t, Ok(_)) => match t.mark_removed(p.id, now).insert_event(
                p.id,
                "project_removed"@,
                now,
                None,
                path_payload(p.path),
            ) {
                (u, Err(e)) => (u, Err(e)),
                (u, Ok(_)) => (u, Ok(())),
            },
        }
    }
}

/// Bringing the journal in line with the projects that were found: new ones
/// are registered, missing ones are marked. Gives the paths of the projects
/// with their identifiers.
pub open spec fn reconciled(s: StoreModel, found: Seq<FoundModel>, now: i64) -> (
    StoreModel,
    Result<Seq<(Seq<char>, int)>, StoreError>,
) {
    let known = s.by_name();
    match registered(s, found, now, known.len() == 0) {
        (t, Err(e)) => (t, Err(e)),
        (t, Ok(index)) => match departed(t, known.filter(is_absent(found)), now) {
            (u, Err(e)) => (u, Err(e)),
            (u, Ok(_)) => (u, Ok(index)),
        },
    }
}

/// What an index of projects holds: paths and identifiers.
pub open spec fn index_view(index: Seq<(String, i64)>) -> Seq<(Seq<char>, int)> {
    index.map_values(|p: (String, i64)| (p.0@, p.1 as int))
}

/// The project that a path belongs to.
pub open spec fn owner_of(index: Seq<(Seq<char>, int)>, path: Seq<char>) -> Option<int> {
    match discovery::owner_index(index.map_values(|p: (Seq<char>, int)| p.0), path) {
        Some(i) => Some(index[i].1),
        None => None,
    }
}

/// Projects to which one of the paths belongs.
pub open spec fn is_touched(index: Seq<(Seq<char>, int)>, paths: Seq<Seq<char>>) -> spec_fn(
    (Seq<char>, int),
) -> bool {
    |p: (Seq<char>, int)|
        exists|i: int| 0 <= i < paths.len() && owner_of(index, #[trigger] paths[i]) == Some(p.1)
}

/// Whether a path goes through `.git`.
pub open spec fn is_in_git(path: Seq<char>) -> bool {
    discovery::components(path).contains(PartModel::Normal(".git"@))
}

/// Whether one of the paths is in a repository that is not known: it was
/// initialised or cloned just now.
pub open spec fn shows_new_repository(index: Seq<(Seq<char>, int)>, paths: Seq<Seq<char>>) -> bool {
    exists|i: int|
        0 <= i < paths.len() && owner_of(index, #[trigger] paths[i]) is None && is_in_git(paths[i])
}

fn goes_through_git(path: &str) -> (r: bool)
    ensures
        r == is_in_git(path@),
{
    let all = discovery::parts(path);
    let mut i: usize = 0;
    while i < all.len()
        invariant
            i <= all.len(),
            order::views(all@) == discovery::components(path@),
            forall|j: int|
                0 <= j < i ==> discovery::components(path@)[j] != PartModel::Normal(".git"@),
        decreases all.len() - i,
    {
        assert(discovery::components(path@)[i as int] == all@[i as int]@);
        match &all[i] {
            discovery::Part::Normal(name) => {
                if text::same(name.as_str(), ".git") {
                    return true;
                }
            },
            _ => {},
        }
        i += 1;
    }
    false
}

fn present(found: &Vec<Found>, path: &str) -> (r: bool)
    ensures
        r == is_present(order::views(found@), path@),
{
    let mut i: usize = 0;
    while i < found.len()
        invariant
            i <= found.len(),
            forall|j: int|
                0 <= j < i ==> !discovery::same_path((#[trigger] order::views(found@)[j]).path, path@),
        decreases found.len() - i,
    {
        assert(order::views(found@)[i as int] == found@[i as int]@);
        if discovery::is_same_path(found[i].path.as_str(), path) {
            return true;
        }
        i += 1;
    }
    false
}

/// A failure at one of the projects is how registering them all ends.
proof fn lemma_registered_fail(
    s: StoreModel,
    found: Seq<FoundModel>,
    now: i64,
    first_run: bool,
    i: int,
)
    requires
        0 <= i <= found.len(),
        registered(s, found.take(i), now, first_run).1 is Err,
    ensures
        registered(s, found, now, first_run) == registered(s, found.take(i), now, first_run),
    decreases found.len() - i,
{
    if i < found.len() {
        assert(found.take(i + 1).drop_last() =~= found.take(i));
        lemma_registered_fail(s, found, now, first_run, i + 1);
    } else {
        assert(found.take(i) =~= found);
    }
}

/// Whether `t` has the events of `s`, and those that it has beyond them name
/// paths.
pub open spec fn tells_paths(s: StoreModel, t: StoreModel) -> bool {
    &&& s.events.len() <= t.events.len()
    &&& forall|k: int| 0 <= k < s.events.len() ==> #[trigger] t.events[k] == s.events[k]
    &&& forall|k: int|
        s.events.len() <= k < t.events.len() ==> exists|path: Seq<char>|
            (#[trigger] t.events[k]).payload == #[trigger] path_payload(path)
}

/// Whether the payloads of the events that registering projects writes read
/// back as they were written.
pub open spec fn additions_are_kept(
    s: StoreModel,
    found: Seq<FoundModel>,
    now: i64,
    first_run: bool,
) -> bool
    decreases found.len(),
{
    found.len() == 0 || {
        let f = found.last();
        let (t, r) = registered(s, found.drop_last(), now, first_run);
        &&& additions_are_kept(s, found.drop_last(), now, first_run)
        &&& r is Ok && !first_run && (t.upsert_project(f.path, f.name, now).1 matches Ok(known)
            && known.1) ==> json::is_kept(path_payload(f.path))
    }
}

/// Whether the payloads of the events that marking projects as gone writes
/// read back as they were written.
pub open spec fn removals_are_kept(absent: Seq<ProjectModel>) -> bool {
    forall|i: int| 0 <= i < absent.len() ==> json::is_kept(path_payload((#[trigger] absent[i]).path))
}

/// Whether the payloads of the events that a search writes read back as they
/// were written.
pub open spec fn search_is_kept(s: StoreModel, found: Seq<FoundModel>, now: i64) -> bool {
    &&& additions_are_kept(s, found, now, s.by_name().len() == 0)
    &&& removals_are_kept(s.by_name().filter(is_absent(found)))
}

/// Registers the projects that were found.
fn register(store: &mut Store, found: &Vec<Found>, now: i64, first_run: bool) -> (r: Result<
    Vec<(String, i64)>,
    StoreError,
>)
    requires
        old(store)@.wf(),
    ensures
        final(store)@.wf(),
        final(store)@.events.len() >= old(store)@.events.len(),
        final(store)@ == registered(old(store)@, order::views(found@), now, first_run).0,
        match registered(old(store)@, order::views(found@), now, first_run).1 {
            Ok(index) => r matches Ok(list) && index_view(list@) == index,
            Err(e) => r == Err::<Vec<(String, i64)>, StoreError>(e),
        },
        tells_paths(old(store)@, final(store)@),
        r is Ok ==> additions_are_kept(old(store)@, order::views(found@), now, first_run),
{
    let ghost all = order::views(found@);
    let ghost before = store@;
    let mut index: Vec<(String, i64)> = Vec::new();
    let mut i: usize = 0;
    assert(index_view(index@) =~= seq![]);
    while i < found.len()
        invariant
            i <= found.len(),
            all == order::views(found@),
            all.len() == found@.len(),
            before == old(store)@,
            store@.wf(),
            store@.events.len() >= before.events.len(),
            registered(before, all.take(i as int), now, first_run) == (
                store@,
                Ok::<Seq<(Seq<char>, int)>, StoreError>(index_view(index@)),
            ),
            tells_paths(before, store@),
            additions_are_kept(before, all.take(i as int), now, first_run),
        decreases found.len() - i,
    {
        let ghost done = index_view(index@);
        proof {
            assert(all.take(i + 1).drop_last() =~= all.take(i as int));
            assert(all.take(i + 1).last() == found@[i as int]@);
        }
        let (id, created) = match store.upsert_project(
            found[i].path.as_str(),
            found[i].name.as_str(),
            now,
        ) {
            Ok(known) => known,
            Err(e) => {
                proof {
                    lemma_registered_fail(before, all, now, first_run, i + 1);
                }
                return Err(e);
            },
        };
        if created && !first_run {
            let payload = path_value(found[i].path.as_str());
            proof {
                path_payloads_are_plain(found@[i as int].path@);
            }
            match store.insert_event(id, "project_added", now, None, &payload) {
                Ok(_) => {},
                Err(e) => {
                    proof {
                        lemma_registered_fail(before, all, now, first_run, i + 1);
                    }
                    return Err(e);
                },
            }
        }
        let entry = (found[i].path.clone(), id);
        index.push(entry);
        assert(index_view(index@) =~= done.push((entry.0@, id as int)));
        i += 1;
    }
    assert(all.take(i as int) =~= all);
    Ok(index)
}

/// A failure at one of the projects is how marking them all ends.
proof fn lemma_departed_fail(s: StoreModel, absent: Seq<ProjectModel>, now: i64, i: int)
    requires
        0 <= i <= absent.len(),
        departed(s, absent.take(i), now).1 is Err,
    ensures
        departed(s, absent, now) == departed(s, absent.take(i), now),
    decreases absent.len() - i,
{
    if i < absent.len() {
        assert(absent.take(i + 1).drop_last() =~= absent.take(i));
        lemma_departed_fail(s, absent, now, i + 1);
    } else {
        assert(absent.take(i) =~= absent);
    }
}

/// Marks projects as gone.
fn depart(store: &mut Store, absent: &Vec<ProjectRow>, now: i64) -> (r: Result<(), StoreError>)
    requires
        old(store)@.wf(),
    ensures
        final(store)@.wf(),
        final(store)@.events.len() >= old(store)@.events.len(),
        final(store)@ == departed(old(store)@, order::views(absent@), now).0,
        r == departed(old(store)@, order::views(absent@), now).1,
        tells_paths(old(store)@, final(store)@),
        r is Ok ==> removals_are_kept(order::views(absent@)),
{
    let ghost all = order::views(absent@);
    let ghost before = store@;
    let mut i: usize = 0;
    while i < absent.len()
        invariant
            i <= absent.len(),
            all == order::views(absent@),
            all.len() == absent@.len(),
            before == old(store)@,
            store@.wf(),
            store@.events.len() >= before.events.len(),
            departed(before, all.take(i as int), now) == (store@, Ok::<(), StoreError>(())),
            tells_paths(before, store@),
            removals_are_kept(all.take(i as int)),
        decreases absent.len() - i,
    {
        proof {
            assert(all.take(i + 1).drop_last() =~= all.take(i as int));
            assert(all.take(i + 1).last() == absent@[i as int]@);
        }
        store.mark_removed(absent[i].id, now);
        let payload = path_value(absent[i].path.as_str());
        proof {
            path_payloads_are_plain(absent@[i as int].path@);
        }
        match store.insert_event(absent[i].id, "project_removed", now, None, &payload) {
            Ok(_) => {},
            Err(e) => {
                proof {
                    lemma_departed_fail(before, all, now, i + 1);
                }
                return Err(e);
            },
        }
        i += 1;
    }
    assert(all.take(i as int) =~= all);
    Ok(())
}

/// The projects that a set of changed paths calls for.
#[derive(Debug, Clone, PartialEq)]
pub struct Affected {
    /// The projects to scan: paths and identifiers.
    pub projects: Vec<(String, i64)>,
    /// Whether to look for new projects first.
    pub rediscover: bool,
}

/// Keeps track of the projects under the watched roots.
#[derive(Debug, Clone)]
pub struct Collector {
    pub walker: Walker,
    pub roots: Vec<String>,
    /// The projects by their paths: a file event finds its project by its path.
    pub index: Vec<(String, i64)>,
}

impl Collector {
    pub fn new(walker: Walker, roots: Vec<String>) -> (r: Collector)
        ensures
            r.walker == walker,
            r.roots == roots,
            r.index@ == Seq::<(String, i64)>::empty(),
    {
        Collector { walker, roots, index: Vec::new() }
    }

    pub fn walker(&self) -> (r: &Walker)
        ensures
            *r == self.walker,
    {
        &self.walker
    }

    pub fn roots(&self) -> (r: &[String])
        ensures
            r@ == self.roots@,
    {
        self.roots.as_slice()
    }

    /// Brings the journal in line with the projects that were found, and tells
    /// how many events were written.
    pub fn discover(&mut self, store: &mut Store, found: &Vec<Found>, now: i64) -> (r: Result<
        usize,
        StoreError,
    >)
        requires
            old(store)@.wf(),
        ensures
            final(store)@.wf(),
            final(store)@ == reconciled(old(store)@, order::views(found@), now).0,
            final(self).walker == old(self).walker,
            final(self).roots == old(self).roots,
            match reconciled(old(store)@, order::views(found@), now).1 {
                Ok(index) => {
                    &&& r matches Ok(n)
                    &&& n == final(store)@.events.len() - old(store)@.events.len()
                    &&& index_view(final(self).index@) == index
                },
                Err(e) => r == Err::<usize, StoreError>(e) && final(self).index == old(self).index,
            },
            tells_paths(old(store)@, final(store)@),
            r is Ok ==> search_is_kept(old(store)@, order::views(found@), now),
            r is Ok ==> search_laws::tells_search(
                old(store)@,
                final(store)@,
                order::views(found@),
                index_view(final(self).index@),
                now,
            ),
    {
        let before = store.events.len();
        assert(store@.events.len() == store.events@.len());
        let known = store.projects();
        assert(order::views(known@).len() == known@.len());
        let test = |p: &ProjectRow| -> (r: bool)
            ensures r == (p.removed_at is None && !is_present(order::views(found@), p.path@))
        { p.removed_at.is_none() && !present(found, p.path.as_str()) };
        let absent = order::select(&known, test, Ghost(is_absent(order::views(found@))));
        let index = match register(store, found, now, known.len() == 0) {
            Ok(index) => index,
            Err(e) => {
                return Err(e);
            },
        };
        match depart(store, &absent, now) {
            Ok(_) => {},
            Err(e) => {
                return Err(e);
            },
        }
        self.index = index;
        proof {
            search_laws::a_search_tells_who_came_and_went(
                old(store)@,
                order::views(found@),
                now,
            );
        }
        assert(store@.events.len() == store.events@.len());
        Ok(store.events.len() - before)
    }

    /// The projects to which changed paths belong. A path inside `.git` and
    /// outside all known projects comes from `git init` or `git clone`: then new
    /// projects are looked for first.
    pub fn affected(&self, paths: &Vec<String>) -> (r: Affected)
        ensures
            index_view(r.projects@) == index_view(self.index@).filter(
                is_touched(index_view(self.index@), text::texts(paths@)),
            ),
            r.rediscover == shows_new_repository(index_view(self.index@), text::texts(paths@)),
    {
        let ghost all = index_view(self.index@);
        let ghost changed = text::texts(paths@);
        let ghost touched = is_touched(all, changed);
        let mut owned: Vec<i64> = Vec::new();
        let mut rediscover = false;
        let mut i: usize = 0;
        proof {
            assert(discovery::roots_of(self.index@) =~= all.map_values(
                |p: (Seq<char>, int)| p.0,
            ));
        }
        while i < paths.len()
            invariant
                i <= paths.len(),
                all == index_view(self.index@),
                changed == text::texts(paths@),
                discovery::roots_of(self.index@) == all.map_values(|p: (Seq<char>, int)| p.0),
                forall|id: i64| #[trigger]
                    owned@.contains(id) <==> exists|j: int|
                        0 <= j < i && owner_of(all, #[trigger] changed[j]) == Some(id as int),
                rediscover == (exists|j: int|
                    0 <= j < i && owner_of(all, #[trigger] changed[j]) is None && is_in_git(
                        changed[j],
                    )),
            decreases paths.len() - i,
        {
            let ghost before = owned@;
            assert(changed[i as int] == paths@[i as int]@);
            proof {
                discovery::the_deepest_project_owns_the_path(
                    discovery::roots_of(self.index@),
                    changed[i as int],
                );
            }
            match discovery::owner(self.index.as_slice(), paths[i].as_str()) {
                Some(id) => {
                    let id = *id;
                    assert(owner_of(all, changed[i as int]) == Some(id as int));
                    owned.push(id);
                    assert(owned@.last() == id);
                    assert forall|other: i64| #[trigger]
                        owned@.contains(other) <==> exists|j: int|
                            0 <= j < i + 1 && owner_of(all, #[trigger] changed[j]) == Some(
                                other as int,
                            ) by {
                        if before.contains(other) {
                            let k = choose|k: int| 0 <= k < before.len() && before[k] == other;
                            assert(owned@[k] == other);
                        }
                        if owned@.contains(other) && other != id {
                            let k = choose|k: int| 0 <= k < owned@.len() && owned@[k] == other;
                            assert(before[k] == other);
                            assert(before.contains(other));
                        }
                    }
                },
                None => {
                    assert(owner_of(all, changed[i as int]) is None);
                    if goes_through_git(paths[i].as_str()) {
                        rediscover = true;
                    }
                },
            }
            i += 1;
        }
        let mut projects: Vec<(String, i64)> = Vec::new();
        let mut k: usize = 0;
        proof {
            order::lemma_filter_none(all, touched);
            assert(index_view(projects@) =~= all.take(0).filter(touched));
        }
        while k < self.index.len()
            invariant
                k <= self.index.len(),
                all == index_view(self.index@),
                touched == is_touched(all, changed),
                forall|id: i64| #[trigger]
                    owned@.contains(id) <==> exists|j: int|
                        0 <= j < changed.len() && owner_of(all, #[trigger] changed[j]) == Some(
                            id as int,
                        ),
                index_view(projects@) == all.take(k as int).filter(touched),
            decreases self.index.len() - k,
        {
            let ghost done = index_view(projects@);
            proof {
                order::lemma_filter_step(all, k as int, touched);
                assert(all[k as int] == (self.index@[k as int].0@, self.index@[k as int].1 as int));
            }
            let id = self.index[k].1;
            if holds(&owned, id) {
                let entry = (self.index[k].0.clone(), id);
                projects.push(entry);
                assert(index_view(projects@) =~= done.push((entry.0@, id as int)));
            }
            k += 1;
        }
        assert(all.take(k as int) =~= all);
        Affected { projects, rediscover }
    }
}

fn holds(list: &Vec<i64>, id: i64) -> (r: bool)
    ensures
        r == list@.contains(id),
{
    let mut i: usize = 0;
    while i < list.len()
        invariant
            i <= list.len(),
            forall|j: int| 0 <= j < i ==> list@[j] != id,
        decreases list.len() - i,
    {
        if list[i] == id {
            return true;
        }
        i += 1;
    }
    false
}

} // verus!
