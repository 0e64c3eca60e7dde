//! The journal: projects, the tips of their branches, events and digests.
//!
//! A [`Store`] holds the rows of the four tables and keeps their rules: what
//! is unique, what refers to what, and in which order rows are read. It knows
//! nothing of git, nor of the protocol that serves it.

use crate::json;
use crate::json::Json;
use crate::order;
use crate::order::Keep;
use crate::text;
use serde_json::Value;
use vstd::prelude::*;

verus! {

/// Why a row was not written.
#[derive(Debug, Clone, Copy, PartialEq, Eq, Structural)]
pub enum StoreError {
    /// The row refers to a project that is not in the store.
    UnknownProject,
    /// The table has used up its identifiers.
    Full,
}

/// A project.
#[derive(Debug, Clone, PartialEq)]
pub struct ProjectRow {
    pub id: i64,
    pub path: String,
    pub name: String,
    pub head_branch: Option<String>,
    pub dirty_files: i64,
    pub dirty_sample: Vec<String>,
    pub first_seen: i64,
    pub last_scanned: Option<i64>,
    pub last_activity: Option<i64>,
    pub removed_at: Option<i64>,
}

/// The tip of a branch that the journal has taken in.
#[derive(Debug, Clone, PartialEq)]
pub struct RefRow {
    pub project_id: i64,
    pub name: String,
    pub sha: String,
}

/// An event as it is kept.
#[derive(Debug, Clone, PartialEq)]
pub struct StoredEvent {
    pub id: i64,
    pub project_id: i64,
    pub kind: String,
    pub seen_at: i64,
    pub sha: Option<String>,
    pub payload: Value,
}

/// An event together with the name of its project, as digests and tools read
/// it.
#[derive(Debug, Clone, PartialEq)]
pub struct EventRow {
    pub id: i64,
    pub project_id: i64,
    pub project: String,
    pub kind: String,
    pub seen_at: i64,
    pub payload: Value,
}

/// A digest.
#[derive(Debug, Clone, PartialEq)]
pub struct DigestRow {
    pub id: i64,
    pub period_from: i64,
    pub period_to: i64,
    pub created_at: i64,
    pub body: Value,
    pub text: String,
    pub acked_at: Option<i64>,
}

/// The state of a working tree after a scan.
#[derive(Debug, Clone, PartialEq)]
pub struct Snapshot {
    pub head_branch: Option<String>,
    pub dirty_files: i64,
    pub dirty_sample: Vec<String>,
}

impl Default for Snapshot {
    fn default() -> (r: Snapshot)
        ensures
            r@ == (SnapshotModel { head_branch: None, dirty_files: 0, dirty_sample: seq![] }),
    {
        let r = Snapshot { head_branch: None, dirty_files: 0, dirty_sample: Vec::new() };
        assert(text::texts(r.dirty_sample@) =~= seq![]);
        r
    }
}

/// What a project row holds.
pub struct ProjectModel {
    pub id: int,
    pub path: Seq<char>,
    pub name: Seq<char>,
    pub head_branch: Option<Seq<char>>,
    pub dirty_files: int,
    pub dirty_sample: Seq<Seq<char>>,
    pub first_seen: int,
    pub last_scanned: Option<i64>,
    pub last_activity: Option<i64>,
    pub removed_at: Option<i64>,
}

/// What a row of branch tips holds.
pub struct RefModel {
    pub project_id: int,
    pub name: Seq<char>,
    pub sha: Seq<char>,
}

/// What a kept event holds.
pub struct StoredModel {
    pub id: int,
    pub project_id: int,
    pub kind: Seq<char>,
    pub seen_at: int,
    pub sha: Option<Seq<char>>,
    pub payload: Json,
}

/// What an event that was read holds.
pub struct EventModel {
    pub id: int,
    pub project_id: int,
    pub project: Seq<char>,
    pub kind: Seq<char>,
    pub seen_at: int,
    pub payload: Json,
}

/// What a digest row holds.
pub struct DigestRowModel {
    pub id: int,
    pub period_from: int,
    pub period_to: int,
    pub created_at: int,
    pub body: Json,
    pub text: Seq<char>,
    pub acked_at: Option<i64>,
}

/// What a snapshot holds.
pub struct SnapshotModel {
    pub head_branch: Option<Seq<char>>,
    pub dirty_files: int,
    pub dirty_sample: Seq<Seq<char>>,
}

impl View for ProjectRow {
    type V = ProjectModel;

    open spec fn view(&self) -> ProjectModel {
        ProjectModel {
            id: self.id as int,
            path: self.path@,
            name: self.name@,
            head_branch: text::text_opt(self.head_branch),
            dirty_files: self.dirty_files as int,
            dirty_sample: text::texts(self.dirty_sample@),
            first_seen: self.first_seen as int,
            last_scanned: self.last_scanned,
            last_activity: self.last_activity,
            removed_at: self.removed_at,
        }
    }
}

impl View for RefRow {
    type V = RefModel;

    open spec fn view(&self) -> RefModel {
        RefModel { project_id: self.project_id as int, name: self.name@, sha: self.sha@ }
    }
}

impl View for StoredEvent {
    type V = StoredModel;

    open spec fn view(&self) -> StoredModel {
        StoredModel {
            id: self.id as int,
            project_id: self.project_id as int,
            kind: self.kind@,
            seen_at: self.seen_at as int,
            sha: text::text_opt(self.sha),
            payload: json::json_view(self.payload),
        }
    }
}

impl View for EventRow {
    type V = EventModel;

    open spec fn view(&self) -> EventModel {
        EventModel {
            id: self.id as int,
            project_id: self.project_id as int,
            project: self.project@,
            kind: self.kind@,
            seen_at: self.seen_at as int,
            payload: json::json_view(self.payload),
        }
    }
}

impl View for DigestRow {
    type V = DigestRowModel;

    open spec fn view(&self) -> DigestRowModel {
        DigestRowModel {
            id: self.id as int,
            period_from: self.period_from as int,
            period_to: self.period_to as int,
            created_at: self.created_at as int,
            body: json::json_view(self.body),
            text: self.text@,
            acked_at: self.acked_at,
        }
    }
}

impl View for Snapshot {
    type V = SnapshotModel;

    open spec fn view(&self) -> SnapshotModel {
        SnapshotModel {
            head_branch: text::text_opt(self.head_branch),
            dirty_files: self.dirty_files as int,
            dirty_sample: text::texts(self.dirty_sample@),
        }
    }
}

impl Keep for ProjectRow {
    fn keep(&self) -> (r: Self) {
        ProjectRow {
            id: self.id,
            path: self.path.clone(),
            name: self.name.clone(),
            head_branch: text::copy_opt(&self.head_branch),
            dirty_files: self.dirty_files,
            dirty_sample: text::copy_list(&self.dirty_sample),
            first_seen: self.first_seen,
            last_scanned: self.last_scanned,
            last_activity: self.last_activity,
            removed_at: self.removed_at,
        }
    }
}

impl Keep for RefRow {
    fn keep(&self) -> (r: Self) {
        RefRow { project_id: self.project_id, name: self.name.clone(), sha: self.sha.clone() }
    }
}

impl Keep for StoredEvent {
    fn keep(&self) -> (r: Self) {
        StoredEvent {
            id: self.id,
            project_id: self.project_id,
            kind: self.kind.clone(),
            seen_at: self.seen_at,
            sha: text::copy_opt(&self.sha),
            payload: self.payload.clone(),
        }
    }
}

impl Keep for DigestRow {
    fn keep(&self) -> (r: Self) {
        DigestRow {
            id: self.id,
            period_from: self.period_from,
            period_to: self.period_to,
            created_at: self.created_at,
            body: self.body.clone(),
            text: self.text.clone(),
            acked_at: self.acked_at,
        }
    }
}

// --- the model -----------------------------------------------------------

/// What a store holds: the rows of its tables, in the order in which they
/// were written.
#[verifier::ext_equal]
pub struct StoreModel {
    pub projects: Seq<ProjectModel>,
    pub refs: Seq<RefModel>,
    pub events: Seq<StoredModel>,
    pub digests: Seq<DigestRowModel>,
}

/// The identifier for a new row: one more than the largest in use, from one.
pub open spec fn next_id(ids: Seq<int>) -> int
    decreases ids.len(),
{
    if ids.len() == 0 {
        1
    } else {
        let n = next_id(ids.drop_last());
        if ids.last() >= n {
            ids.last() + 1
        } else {
            n
        }
    }
}

/// A new identifier is larger than any in use.
pub proof fn lemma_next_id(ids: Seq<int>)
    ensures
        next_id(ids) >= 1,
        forall|i: int| 0 <= i < ids.len() ==> #[trigger] ids[i] < next_id(ids),
    decreases ids.len(),
{
    if ids.len() > 0 {
        lemma_next_id(ids.drop_last());
        assert forall|i: int| 0 <= i < ids.len() implies #[trigger] ids[i] < next_id(ids) by {
            if i < ids.len() - 1 {
                assert(ids.drop_last()[i] == ids[i]);
            }
        }
    }
}

/// The identifiers of projects.
pub open spec fn project_ids(rows: Seq<ProjectModel>) -> Seq<int> {
    rows.map_values(project_id_of())
}

/// The identifiers of events.
pub open spec fn event_ids(rows: Seq<StoredModel>) -> Seq<int> {
    rows.map_values(event_id_of())
}

/// The identifiers of digests.
pub open spec fn digest_ids(rows: Seq<DigestRowModel>) -> Seq<int> {
    rows.map_values(digest_id_of())
}

pub open spec fn project_id_of() -> spec_fn(ProjectModel) -> int {
    |p: ProjectModel| p.id
}

pub open spec fn event_id_of() -> spec_fn(StoredModel) -> int {
    |e: StoredModel| e.id
}

pub open spec fn digest_id_of() -> spec_fn(DigestRowModel) -> int {
    |d: DigestRowModel| d.id
}

/// The project with the identifier.
pub open spec fn with_id(id: int) -> spec_fn(ProjectModel) -> bool {
    |p: ProjectModel| p.id == id
}

/// The project at the path.
pub open spec fn with_path(path: Seq<char>) -> spec_fn(ProjectModel) -> bool {
    |p: ProjectModel| p.path == path
}

/// Projects that are still there.
pub open spec fn is_active() -> spec_fn(ProjectModel) -> bool {
    |p: ProjectModel| p.removed_at is None
}

/// Projects of that name or at that path.
pub open spec fn called(key: Seq<char>) -> spec_fn(ProjectModel) -> bool {
    |p: ProjectModel| p.name == key || p.path == key
}

/// Projects of that name or at that path that are still there.
pub open spec fn active_called(key: Seq<char>) -> spec_fn(ProjectModel) -> bool {
    |p: ProjectModel| (p.name == key || p.path == key) && p.removed_at is None
}

/// The branch of a project.
pub open spec fn is_ref(project_id: int, name: Seq<char>) -> spec_fn(RefModel) -> bool {
    |r: RefModel| r.project_id == project_id && r.name == name
}

/// Everything but the branch of a project.
pub open spec fn is_other_ref(project_id: int, name: Seq<char>) -> spec_fn(RefModel) -> bool {
    |r: RefModel| !(r.project_id == project_id && r.name == name)
}

/// The branches of a project.
pub open spec fn is_ref_of(project_id: int) -> spec_fn(RefModel) -> bool {
    |r: RefModel| r.project_id == project_id
}

/// Events of a project about a commit.
pub open spec fn is_about(project_id: int, sha: Seq<char>) -> spec_fn(StoredModel) -> bool {
    |e: StoredModel| e.project_id == project_id && e.sha == Some(sha)
}

/// Events of the period after `from`, up to and with `to`.
pub open spec fn seen_between(from: int, to: int) -> spec_fn(StoredModel) -> bool {
    |e: StoredModel| from < e.seen_at <= to
}

/// Events from `since` on, of one project or of all.
pub open spec fn seen_since(project_id: Option<i64>, since: int) -> spec_fn(StoredModel) -> bool {
    |e: StoredModel|
        e.seen_at >= since && (project_id matches Some(id) ==> e.project_id == id)
}

/// Events from `before` on.
pub open spec fn is_recent(before: int) -> spec_fn(StoredModel) -> bool {
    |e: StoredModel| e.seen_at >= before
}

/// Digests whose period ended at `before` or later.
pub open spec fn is_recent_digest(before: int) -> spec_fn(DigestRowModel) -> bool {
    |d: DigestRowModel| d.period_to >= before
}

/// The digest with the identifier.
pub open spec fn is_digest(id: int) -> spec_fn(DigestRowModel) -> bool {
    |d: DigestRowModel| d.id == id
}

/// Digests that were not acknowledged, or any.
pub open spec fn is_wanted(unread_only: bool) -> spec_fn(DigestRowModel) -> bool {
    |d: DigestRowModel| unread_only ==> d.acked_at is None
}

/// By name, then in the order of registration.
pub open spec fn by_name() -> spec_fn(ProjectModel, ProjectModel) -> bool {
    |a: ProjectModel, b: ProjectModel| text::precedes(a.name, b.name)
}

/// Oldest first.
pub open spec fn oldest_first() -> spec_fn(EventModel, EventModel) -> bool {
    |a: EventModel, b: EventModel| a.seen_at < b.seen_at || (a.seen_at == b.seen_at && a.id < b.id)
}

/// Newest first.
pub open spec fn newest_first() -> spec_fn(EventModel, EventModel) -> bool {
    |a: EventModel, b: EventModel| a.seen_at > b.seen_at || (a.seen_at == b.seen_at && a.id > b.id)
}

/// Latest period first.
pub open spec fn latest_first() -> spec_fn(DigestRowModel, DigestRowModel) -> bool {
    |a: DigestRowModel, b: DigestRowModel|
        a.period_to > b.period_to || (a.period_to == b.period_to && a.id > b.id)
}

/// The later of two moments of activity; none counts as the epoch.
pub open spec fn later(known: Option<i64>, seen_at: i64) -> i64 {
    let known = match known {
        Some(t) => t,
        None => 0,
    };
    if known >= seen_at {
        known
    } else {
        seen_at
    }
}

/// No two projects share an identifier or a path.
pub open spec fn other_project() -> spec_fn(ProjectModel, ProjectModel) -> bool {
    |a: ProjectModel, b: ProjectModel| a.path != b.path && a.id != b.id
}

/// A project has one tip for each branch.
pub open spec fn other_branch() -> spec_fn(RefModel, RefModel) -> bool {
    |a: RefModel, b: RefModel| !(a.project_id == b.project_id && a.name == b.name)
}

/// Identifiers grow, and a project has one event about each commit.
pub open spec fn next_event() -> spec_fn(StoredModel, StoredModel) -> bool {
    |a: StoredModel, b: StoredModel|
        a.id < b.id && !(a.sha is Some && a.project_id == b.project_id && a.sha == b.sha)
}

/// Identifiers grow.
pub open spec fn next_digest() -> spec_fn(DigestRowModel, DigestRowModel) -> bool {
    |a: DigestRowModel, b: DigestRowModel| a.id < b.id
}

/// The project of a branch is in the store.
pub open spec fn ref_is_known(store: StoreModel) -> spec_fn(RefModel) -> bool {
    |r: RefModel| store.knows(r.project_id)
}

/// The project of an event is in the store.
pub open spec fn event_is_known(store: StoreModel) -> spec_fn(StoredModel) -> bool {
    |e: StoredModel| store.knows(e.project_id)
}

impl StoreModel {
    /// The rules that the tables keep.
    pub open spec fn wf(self) -> bool {
        &&& forall|i: int, j: int|
            0 <= i < j < self.projects.len() ==> other_project()(
                #[trigger] self.projects[i],
                #[trigger] self.projects[j],
            )
        &&& forall|i: int, j: int|
            0 <= i < j < self.refs.len() ==> other_branch()(
                #[trigger] self.refs[i],
                #[trigger] self.refs[j],
            )
        &&& forall|i: int, j: int|
            0 <= i < j < self.events.len() ==> next_event()(
                #[trigger] self.events[i],
                #[trigger] self.events[j],
            )
        &&& forall|i: int, j: int|
            0 <= i < j < self.digests.len() ==> next_digest()(
                #[trigger] self.digests[i],
                #[trigger] self.digests[j],
            )
        &&& forall|i: int| 0 <= i < self.refs.len() ==> self.knows((#[trigger] self.refs[i]).project_id)
        &&& forall|i: int|
            0 <= i < self.events.len() ==> self.knows((#[trigger] self.events[i]).project_id)
    }

    /// Whether the project is in the store.
    pub open spec fn knows(self, id: int) -> bool {
        order::position(self.projects, with_id(id)) is Some
    }

    /// The store with the project at index `i` replaced.
    pub open spec fn set_project(self, i: int, p: ProjectModel) -> StoreModel {
        StoreModel { projects: self.projects.update(i, p), ..self }
    }

    /// The name of a project.
    pub open spec fn name_of(self, id: int) -> Seq<char> {
        match order::position(self.projects, with_id(id)) {
            Some(i) => self.projects[i].name,
            None => seq![],
        }
    }

    /// An event with the name of its project.
    pub open spec fn joined(self, e: StoredModel) -> EventModel {
        EventModel {
            id: e.id,
            project_id: e.project_id,
            project: self.name_of(e.project_id),
            kind: e.kind,
            seen_at: e.seen_at,
            payload: e.payload,
        }
    }

    /// Events with the names of their projects.
    pub open spec fn joined_all(self, events: Seq<StoredModel>) -> Seq<EventModel> {
        events.map_values(|e: StoredModel| self.joined(e))
    }

    /// Registering a project. A path that is known keeps its row: it counts
    /// as new only where the project had been gone, and takes the new name
    /// then.
    pub open spec fn upsert_project(self, path: Seq<char>, name: Seq<char>, now: i64) -> (
        StoreModel,
        Result<(int, bool), StoreError>,
    ) {
        match order::position(self.projects, with_path(path)) {
            Some(i) => {
                let p = self.projects[i];
                if p.removed_at is Some {
                    (
                        self.set_project(i, ProjectModel { removed_at: None, name, ..p }),
                        Ok((p.id, true)),
                    )
                } else {
                    (self, Ok((p.id, false)))
                }
            },
            None => {
                let id = next_id(project_ids(self.projects));
                if id > i64::MAX {
                    (self, Err(StoreError::Full))
                } else {
                    let p = ProjectModel {
                        id,
                        path,
                        name,
                        head_branch: None,
                        dirty_files: 0,
                        dirty_sample: seq![],
                        first_seen: now as int,
                        last_scanned: None,
                        last_activity: None,
                        removed_at: None,
                    };
                    (StoreModel { projects: self.projects.push(p), ..self }, Ok((id, true)))
                }
            },
        }
    }

    /// Marking a project as gone; it stays gone since the first time.
    pub open spec fn mark_removed(self, id: int, now: i64) -> StoreModel {
        match order::position(self.projects, with_id(id)) {
            Some(i) if self.projects[i].removed_at is None => self.set_project(
                i,
                ProjectModel { removed_at: Some(now), ..self.projects[i] },
            ),
            _ => self,
        }
    }

    /// All projects by name.
    pub open spec fn by_name(self) -> Seq<ProjectModel> {
        order::sorted(self.projects, by_name())
    }

    /// The project of a name or at a path; one that is still there first.
    pub open spec fn find_project(self, key: Seq<char>) -> Option<ProjectModel> {
        match order::position(self.projects, active_called(key)) {
            Some(i) => Some(self.projects[i]),
            None => match order::position(self.projects, called(key)) {
                Some(i) => Some(self.projects[i]),
                None => None,
            },
        }
    }

    /// Keeping what a scan saw.
    pub open spec fn save_snapshot(self, id: int, snapshot: SnapshotModel, now: i64) -> StoreModel {
        match order::position(self.projects, with_id(id)) {
            Some(i) => self.set_project(
                i,
                ProjectModel {
                    head_branch: snapshot.head_branch,
                    dirty_files: snapshot.dirty_files,
                    dirty_sample: snapshot.dirty_sample,
                    last_scanned: Some(now),
                    ..self.projects[i]
                },
            ),
            None => self,
        }
    }

    /// The branch tips of a project.
    pub open spec fn refs_of(self, project_id: int) -> Seq<RefModel> {
        self.refs.filter(is_ref_of(project_id))
    }

    /// Setting the tip of a branch.
    pub open spec fn set_ref(self, project_id: int, name: Seq<char>, sha: Seq<char>) -> (
        StoreModel,
        Result<(), StoreError>,
    ) {
        let row = RefModel { project_id, name, sha };
        if !self.knows(project_id) {
            (self, Err(StoreError::UnknownProject))
        } else {
            match order::position(self.refs, is_ref(project_id, name)) {
                Some(i) => (StoreModel { refs: self.refs.update(i, row), ..self }, Ok(())),
                None => (StoreModel { refs: self.refs.push(row), ..self }, Ok(())),
            }
        }
    }

    /// Dropping a branch.
    pub open spec fn delete_ref(self, project_id: int, name: Seq<char>) -> StoreModel {
        StoreModel { refs: self.refs.filter(is_other_ref(project_id, name)), ..self }
    }

    /// Writing an event. A commit that the project already has an event about
    /// is passed over. Otherwise the event is added, with what a column keeps
    /// of its payload, and the project was active then.
    pub open spec fn insert_event(
        self,
        project_id: int,
        kind: Seq<char>,
        seen_at: i64,
        sha: Option<Seq<char>>,
        payload: Json,
    ) -> (StoreModel, Result<bool, StoreError>) {
        let id = next_id(event_ids(self.events));
        match order::position(self.projects, with_id(project_id)) {
            None => (self, Err(StoreError::UnknownProject)),
            Some(i) => if sha matches Some(s) && order::position(
                self.events,
                is_about(project_id, s),
            ) is Some {
                (self, Ok(false))
            } else if id > i64::MAX {
                (self, Err(StoreError::Full))
            } else {
                let e = StoredModel {
                    id,
                    project_id,
                    kind,
                    seen_at: seen_at as int,
                    sha,
                    payload: json::kept(payload),
                };
                let p = self.projects[i];
                (
                    StoreModel {
                        events: self.events.push(e),
                        projects: self.projects.update(
                            i,
                            ProjectModel {
                                last_activity: Some(later(p.last_activity, seen_at)),
                                ..p
                            },
                        ),
                        ..self
                    },
                    Ok(true),
                )
            },
        }
    }

    /// The events of a period, oldest first.
    pub open spec fn events_between(self, from: int, to: int) -> Seq<EventModel> {
        order::sorted(self.joined_all(self.events.filter(seen_between(from, to))), oldest_first())
    }

    /// The latest events, newest first; no limit where it is negative.
    pub open spec fn recent_events(self, project_id: Option<i64>, since: int, limit: int) -> Seq<
        EventModel,
    > {
        limited(
            order::sorted(
                self.joined_all(self.events.filter(seen_since(project_id, since))),
                newest_first(),
            ),
            limit,
        )
    }

    /// When the earliest event was seen.
    pub open spec fn earliest_event(self) -> Option<int> {
        least(self.events)
    }

    /// Writing a digest, with what a column keeps of its body.
    pub open spec fn insert_digest(
        self,
        period_from: int,
        period_to: int,
        created_at: int,
        body: Json,
        text: Seq<char>,
    ) -> (StoreModel, Result<int, StoreError>) {
        let id = next_id(digest_ids(self.digests));
        if id > i64::MAX {
            (self, Err(StoreError::Full))
        } else {
            let d = DigestRowModel {
                id,
                period_from,
                period_to,
                created_at,
                body: json::kept(body),
                text,
                acked_at: None,
            };
            (StoreModel { digests: self.digests.push(d), ..self }, Ok(id))
        }
    }

    /// When the latest period of a digest ended.
    pub open spec fn last_period_to(self) -> Option<int> {
        greatest(self.digests)
    }

    /// The digests, latest period first; no limit where it is negative.
    pub open spec fn digest_list(self, unread_only: bool, limit: int) -> Seq<DigestRowModel> {
        limited(order::sorted(self.digests.filter(is_wanted(unread_only)), latest_first()), limit)
    }

    /// Acknowledging a digest; it stays acknowledged since the first time.
    pub open spec fn ack_digest(self, id: int, now: i64) -> (StoreModel, bool) {
        match order::position(self.digests, is_digest(id)) {
            Some(i) => {
                let d = self.digests[i];
                let acked_at = match d.acked_at {
                    Some(t) => Some(t),
                    None => Some(now),
                };
                (
                    StoreModel {
                        digests: self.digests.update(i, DigestRowModel { acked_at, ..d }),
                        ..self
                    },
                    true,
                )
            },
            None => (self, false),
        }
    }

    /// Dropping the events seen and the digests ended before a moment.
    pub open spec fn prune(self, before: int) -> (StoreModel, nat) {
        let events = self.events.filter(is_recent(before));
        let digests = self.digests.filter(is_recent_digest(before));
        (
            StoreModel { events, digests, ..self },
            ((self.events.len() - events.len()) + (self.digests.len() - digests.len())) as nat,
        )
    }
}

/// The first `limit` rows; all where the limit is negative.
pub open spec fn limited<A>(s: Seq<A>, limit: int) -> Seq<A> {
    if limit < 0 {
        s
    } else {
        order::first(s, limit)
    }
}

/// The earliest moment at which one of the events was seen.
pub open spec fn least(events: Seq<StoredModel>) -> Option<int>
    decreases events.len(),
{
    if events.len() == 0 {
        None
    } else {
        match least(events.drop_last()) {
            Some(t) if t <= events.last().seen_at => Some(t),
            _ => Some(events.last().seen_at),
        }
    }
}

/// The latest moment at which the period of one of the digests ended.
pub open spec fn greatest(digests: Seq<DigestRowModel>) -> Option<int>
    decreases digests.len(),
{
    if digests.len() == 0 {
        None
    } else {
        match greatest(digests.drop_last()) {
            Some(t) if t >= digests.last().period_to => Some(t),
            _ => Some(digests.last().period_to),
        }
    }
}

/// The journal.
#[derive(Debug, Clone)]
pub struct Store {
    pub projects: Vec<ProjectRow>,
    pub refs: Vec<RefRow>,
    pub events: Vec<StoredEvent>,
    pub digests: Vec<DigestRow>,
}

impl View for Store {
    type V = StoreModel;

    open spec fn view(&self) -> StoreModel {
        StoreModel {
            projects: order::views(self.projects@),
            refs: order::views(self.refs@),
            events: order::views(self.events@),
            digests: order::views(self.digests@),
        }
    }
}

/// The identifier for a new row; none where they are used up.
fn fresh<T: View, F: Fn(&T) -> i64>(
    rows: &Vec<T>,
    id: F,
    Ghost(id_of): Ghost<spec_fn(T::V) -> int>,
) -> (r: Option<i64>)
    requires
        forall|a: T| call_requires(id, (&a,)),
        forall|a: T, r: i64| call_ensures(id, (&a,), r) ==> r == id_of(a@),
    ensures
        r is Some <==> next_id(order::views(rows@).map_values(id_of)) <= i64::MAX,
        r matches Some(n) ==> n == next_id(order::views(rows@).map_values(id_of)),
{
    let ghost ids = order::views(rows@).map_values(id_of);
    let mut n: i128 = 1;
    let mut i: usize = 0;
    while i < rows.len()
        invariant
            i <= rows.len(),
            ids == order::views(rows@).map_values(id_of),
            1 <= n <= i64::MAX + 1,
            n == next_id(ids.take(i as int)),
            forall|a: T| call_requires(id, (&a,)),
            forall|a: T, r: i64| call_ensures(id, (&a,), r) ==> r == id_of(a@),
        decreases rows.len() - i,
    {
        assert(ids.take(i + 1).drop_last() =~= ids.take(i as int));
        assert(ids.take(i + 1).last() == id_of(rows@[i as int]@));
        let x = id(&rows[i]) as i128;
        if x >= n {
            n = x + 1;
        }
        i += 1;
    }
    assert(ids.take(i as int) =~= ids);
    if n <= i64::MAX as i128 {
        Some(n as i64)
    } else {
        None
    }
}

proof fn lemma_set_view<T: View>(before: Seq<T>, after: Seq<T>, i: int)
    requires
        0 <= i < before.len(),
        after.len() == before.len(),
        forall|j: int| 0 <= j < before.len() && j != i ==> #[trigger] after[j] == before[j],
    ensures
        order::views(after) == order::views(before).update(i, after[i]@),
{
    assert(order::views(after) =~= order::views(before).update(i, after[i]@));
}

impl Store {
    /// An empty store.
    pub fn open_in_memory() -> (r: Store)
        ensures
            r@.wf(),
            r@.projects == Seq::<ProjectModel>::empty(),
            r@.refs == Seq::<RefModel>::empty(),
            r@.events == Seq::<StoredModel>::empty(),
            r@.digests == Seq::<DigestRowModel>::empty(),
    {
        let r = Store {
            projects: Vec::new(),
            refs: Vec::new(),
            events: Vec::new(),
            digests: Vec::new(),
        };
        assert(r@.projects =~= Seq::<ProjectModel>::empty());
        assert(r@.refs =~= Seq::<RefModel>::empty());
        assert(r@.events =~= Seq::<StoredModel>::empty());
        assert(r@.digests =~= Seq::<DigestRowModel>::empty());
        r
    }

    fn project_index(&self, id: i64) -> (r: Option<usize>)
        ensures
            r is Some <==> order::position(self@.projects, with_id(id as int)) is Some,
            r matches Some(i) ==> order::position(self@.projects, with_id(id as int)) == Some(
                i as int,
            ) && i < self.projects@.len() && self.projects@[i as int].id == id,
    {
        let test = |p: &ProjectRow| -> (r: bool)
            ensures r == (p.id == id)
        { p.id == id };
        order::find(&self.projects, test, Ghost(with_id(id as int)))
    }

    /// Registers a project, or finds it where it is known. The flag tells
    /// whether it is new, or back after it had been gone.
    pub fn upsert_project(&mut self, path: &str, name: &str, now: i64) -> (r: Result<
        (i64, bool),
        StoreError,
    >)
        requires
            old(self)@.wf(),
        ensures
            final(self)@.wf(),
            final(self)@ == old(self)@.upsert_project(path@, name@, now).0,
            match old(self)@.upsert_project(path@, name@, now).1 {
                Ok((id, created)) => r matches Ok(found) && found.0 == id && found.1 == created,
                Err(e) => r == Err::<(i64, bool), StoreError>(e),
            },
    {
        let test = |p: &ProjectRow| -> (r: bool)
            ensures r == (p.path@ == path@)
        { text::same(p.path.as_str(), path) };
        let found = order::find(&self.projects, test, Ghost(with_path(path@)));
        match found {
            Some(i) => {
                let id = self.projects[i].id;
                if self.projects[i].removed_at.is_some() {
                    let ghost before = self.projects@;
                    self.projects[i].removed_at = None;
                    self.projects[i].name = name.to_owned();
                    proof {
                        lemma_set_view(before, self.projects@, i as int);
                        assert(self@ =~= old(self)@.upsert_project(path@, name@, now).0);
                        upsert_keeps_rules(old(self)@, path@, name@, now);
                    }
                    Ok((id, true))
                } else {
                    Ok((id, false))
                }
            },
            None => {
                let id_of = |p: &ProjectRow| -> (r: i64)
                    ensures r == p.id
                { p.id };
                let fresh_id = fresh(&self.projects, id_of, Ghost(project_id_of()));
                match fresh_id {
                    None => Err(StoreError::Full),
                    Some(id) => {
                        let row = ProjectRow {
                            id,
                            path: path.to_owned(),
                            name: name.to_owned(),
                            head_branch: None,
                            dirty_files: 0,
                            dirty_sample: Vec::new(),
                            first_seen: now,
                            last_scanned: None,
                            last_activity: None,
                            removed_at: None,
                        };
                        assert(text::texts(row.dirty_sample@) =~= seq![]);
                        let ghost before = self.projects@;
                        self.projects.push(row);
                        proof {
                            assert(order::views(self.projects@) =~= order::views(before).push(
                                row@,
                            ));
                            assert(self@ =~= old(self)@.upsert_project(path@, name@, now).0);
                            upsert_keeps_rules(old(self)@, path@, name@, now);
                        }
                        Ok((id, true))
                    },
                }
            },
        }
    }
}

/// Keeps at most `limit` rows; all where the limit is negative.
fn limit_rows<T: View>(rows: Vec<T>, limit: i64) -> (r: Vec<T>)
    ensures
        order::views(r@) == limited(order::views(rows@), limit as int),
{
    let mut r = rows;
    if limit >= 0 && (limit as u64) < (r.len() as u64) {
        r.truncate(limit as usize);
        assert(order::views(r@) =~= limited(order::views(rows@), limit as int));
    }
    r
}

impl Store {
    /// Marks a project as gone.
    pub fn mark_removed(&mut self, id: i64, now: i64)
        requires
            old(self)@.wf(),
        ensures
            final(self)@.wf(),
            final(self)@ == old(self)@.mark_removed(id as int, now),
    {
        match self.project_index(id) {
            Some(i) => {
                if self.projects[i].removed_at.is_none() {
                    let ghost before = self.projects@;
                    self.projects[i].removed_at = Some(now);
                    proof {
                        lemma_set_view(before, self.projects@, i as int);
                        assert(self@ =~= old(self)@.mark_removed(id as int, now));
                        mark_removed_keeps_rules(old(self)@, id as int, now);
                    }
                }
            },
            None => {},
        }
    }

    /// All projects, the gone ones too, by name.
    pub fn projects(&self) -> (r: Vec<ProjectRow>)
        ensures
            order::views(r@) == self@.by_name(),
    {
        let before = |a: &ProjectRow, b: &ProjectRow| -> (r: bool)
            ensures r == text::precedes(a.name@, b.name@)
        { text::before(a.name.as_str(), b.name.as_str()) };
        order::sort(order::copy_all(&self.projects), before, Ghost(by_name()))
    }

    /// The projects that are still there, by name.
    pub fn active_projects(&self) -> (r: Vec<ProjectRow>)
        ensures
            order::views(r@) == self@.by_name().filter(is_active()),
    {
        let all = self.projects();
        let test = |p: &ProjectRow| -> (r: bool)
            ensures r == (p.removed_at is None)
        { p.removed_at.is_none() };
        order::select(&all, test, Ghost(is_active()))
    }

    /// The project of a name or at an absolute path.
    pub fn find_project(&self, name_or_path: &str) -> (r: Option<ProjectRow>)
        ensures
            r is Some <==> self@.find_project(name_or_path@) is Some,
            r matches Some(p) ==> self@.find_project(name_or_path@) == Some(p@),
    {
        let active = |p: &ProjectRow| -> (r: bool)
            ensures r == ((p.name@ == name_or_path@ || p.path@ == name_or_path@) && p.removed_at is None)
        {
            p.removed_at.is_none() && (text::same(p.name.as_str(), name_or_path)
                || text::same(p.path.as_str(), name_or_path))
        };
        match order::find(&self.projects, active, Ghost(active_called(name_or_path@))) {
            Some(i) => Some(self.projects[i].keep()),
            None => {
                let any = |p: &ProjectRow| -> (r: bool)
                    ensures r == (p.name@ == name_or_path@ || p.path@ == name_or_path@)
                {
                    text::same(p.name.as_str(), name_or_path) || text::same(
                        p.path.as_str(),
                        name_or_path,
                    )
                };
                match order::find(&self.projects, any, Ghost(called(name_or_path@))) {
                    Some(i) => Some(self.projects[i].keep()),
                    None => None,
                }
            },
        }
    }

    /// Keeps what a scan saw of a working tree.
    pub fn save_snapshot(&mut self, id: i64, snapshot: &Snapshot, now: i64)
        requires
            old(self)@.wf(),
        ensures
            final(self)@.wf(),
            final(self)@ == old(self)@.save_snapshot(id as int, snapshot@, now),
    {
        match self.project_index(id) {
            Some(i) => {
                let ghost before = self.projects@;
                self.projects[i].head_branch = text::copy_opt(&snapshot.head_branch);
                self.projects[i].dirty_files = snapshot.dirty_files;
                self.projects[i].dirty_sample = text::copy_list(&snapshot.dirty_sample);
                self.projects[i].last_scanned = Some(now);
                proof {
                    lemma_set_view(before, self.projects@, i as int);
                    assert(self@ =~= old(self)@.save_snapshot(id as int, snapshot@, now));
                    save_snapshot_keeps_rules(old(self)@, id as int, snapshot@, now);
                }
            },
            None => {},
        }
    }

    // --- branch tips -----------------------------------------------------

    /// The branch tips of a project.
    pub fn refs(&self, project_id: i64) -> (r: Vec<RefRow>)
        ensures
            order::views(r@) == self@.refs_of(project_id as int),
    {
        let test = |row: &RefRow| -> (r: bool)
            ensures r == (row.project_id == project_id)
        { row.project_id == project_id };
        order::select(&self.refs, test, Ghost(is_ref_of(project_id as int)))
    }

    /// Sets the tip of a branch.
    pub fn set_ref(&mut self, project_id: i64, name: &str, sha: &str) -> (r: Result<(), StoreError>)
        requires
            old(self)@.wf(),
        ensures
            final(self)@.wf(),
            final(self)@ == old(self)@.set_ref(project_id as int, name@, sha@).0,
            r == old(self)@.set_ref(project_id as int, name@, sha@).1,
    {
        match self.project_index(project_id) {
            None => {
                return Err(StoreError::UnknownProject);
            },
            Some(_) => {},
        }
        let test = |row: &RefRow| -> (r: bool)
            ensures r == (row.project_id == project_id && row.name@ == name@)
        { row.project_id == project_id && text::same(row.name.as_str(), name) };
        let found = order::find(&self.refs, test, Ghost(is_ref(project_id as int, name@)));
        let ghost before = self.refs@;
        match found {
            Some(i) => {
                self.refs[i].sha = sha.to_owned();
                proof {
                    lemma_set_view(before, self.refs@, i as int);
                    assert(self@ =~= old(self)@.set_ref(project_id as int, name@, sha@).0);
                    set_ref_keeps_rules(old(self)@, project_id as int, name@, sha@);
                }
            },
            None => {
                let row = RefRow { project_id, name: name.to_owned(), sha: sha.to_owned() };
                self.refs.push(row);
                proof {
                    assert(order::views(self.refs@) =~= order::views(before).push(row@));
                    assert(self@ =~= old(self)@.set_ref(project_id as int, name@, sha@).0);
                    set_ref_keeps_rules(old(self)@, project_id as int, name@, sha@);
                }
            },
        }
        Ok(())
    }

    /// Drops a branch.
    pub fn delete_ref(&mut self, project_id: i64, name: &str)
        requires
            old(self)@.wf(),
        ensures
            final(self)@.wf(),
            final(self)@ == old(self)@.delete_ref(project_id as int, name@),
    {
        let test = |row: &RefRow| -> (r: bool)
            ensures r == !(row.project_id == project_id && row.name@ == name@)
        { !(row.project_id == project_id && text::same(row.name.as_str(), name)) };
        let kept = order::select(&self.refs, test, Ghost(is_other_ref(project_id as int, name@)));
        self.refs = kept;
        proof {
            assert(self@ =~= old(self)@.delete_ref(project_id as int, name@));
            delete_ref_keeps_rules(old(self)@, project_id as int, name@);
        }
    }

    // --- events ----------------------------------------------------------

    /// Writes an event. `false` means that the commit was already written,
    /// from another branch: it is not counted twice. A plain payload is kept as
    /// it is.
    pub fn insert_event(
        &mut self,
        project_id: i64,
        kind: &str,
        seen_at: i64,
        sha: Option<&str>,
        payload: &Value,
    ) -> (r: Result<bool, StoreError>)
        requires
            old(self)@.wf(),
        ensures
            final(self)@.wf(),
            final(self)@ == old(self)@.insert_event(
                project_id as int,
                kind@,
                seen_at,
                str_opt(sha),
                json::json_view(*payload),
            ).0,
            r == old(self)@.insert_event(
                project_id as int,
                kind@,
                seen_at,
                str_opt(sha),
                json::json_view(*payload),
            ).1,
            json::is_plain(json::json_view(*payload), json::MAX_DEPTH as nat) ==> json::is_kept(
                json::json_view(*payload),
            ),
    {
        let payload_row = json::keep(payload);
        let index = match self.project_index(project_id) {
            None => {
                return Err(StoreError::UnknownProject);
            },
            Some(i) => i,
        };
        match sha {
            Some(s) => {
                let test = |e: &StoredEvent| -> (r: bool)
                    ensures r == (e.project_id == project_id && text::text_opt(e.sha) == Some(s@))
                {
                    e.project_id == project_id && match &e.sha {
                        Some(known) => text::same(known.as_str(), s),
                        None => false,
                    }
                };
                if order::find(&self.events, test, Ghost(is_about(project_id as int, s@))).is_some() {
                    return Ok(false);
                }
            },
            None => {},
        }
        let id_of = |e: &StoredEvent| -> (r: i64)
            ensures r == e.id
        { e.id };
        let id = match fresh(&self.events, id_of, Ghost(event_id_of())) {
            None => {
                return Err(StoreError::Full);
            },
            Some(id) => id,
        };
        let row = StoredEvent {
            id,
            project_id,
            kind: kind.to_owned(),
            seen_at,
            sha: match sha {
                Some(s) => Some(s.to_owned()),
                None => None,
            },
            payload: payload_row,
        };
        let ghost before_events = self.events@;
        self.events.push(row);
        let known: i64 = match self.projects[index].last_activity {
            Some(t) => t,
            None => 0,
        };
        let ghost before = self.projects@;
        self.projects[index].last_activity = Some(
            if known >= seen_at {
                known
            } else {
                seen_at
            },
        );
        proof {
            lemma_set_view(before, self.projects@, index as int);
            assert(order::views(self.events@) =~= order::views(before_events).push(row@));
            assert(self@ =~= old(self)@.insert_event(
                project_id as int,
                kind@,
                seen_at,
                str_opt(sha),
                json::json_view(*payload),
            ).0);
            insert_event_keeps_rules(
                old(self)@,
                project_id as int,
                kind@,
                seen_at,
                str_opt(sha),
                json::json_view(*payload),
            );
        }
        Ok(true)
    }

    /// Adds to events the names of their projects.
    fn join(&self, rows: &Vec<StoredEvent>) -> (r: Vec<EventRow>)
        ensures
            order::views(r@) == self@.joined_all(order::views(rows@)),
    {
        let mut r: Vec<EventRow> = Vec::new();
        let ghost all = self@.joined_all(order::views(rows@));
        let mut i: usize = 0;
        while i < rows.len()
            invariant
                i <= rows.len(),
                all == self@.joined_all(order::views(rows@)),
                order::views(r@) == all.take(i as int),
            decreases rows.len() - i,
        {
            let e = &rows[i];
            let project = match self.project_index(e.project_id) {
                Some(k) => self.projects[k].name.clone(),
                None => String::new(),
            };
            let row = EventRow {
                id: e.id,
                project_id: e.project_id,
                project,
                kind: e.kind.clone(),
                seen_at: e.seen_at,
                payload: e.payload.clone(),
            };
            assert(project@ =~= self@.name_of(e.project_id as int));
            let ghost done = order::views(r@);
            r.push(row);
            assert(order::views(r@) =~= done.push(row@));
            assert(all[i as int] == row@);
            assert(all.take(i + 1) =~= all.take(i as int).push(all[i as int]));
            i += 1;
        }
        assert(all.take(i as int) =~= all);
        r
    }

    /// The events of the period `(from, to]`, in the order of appearance.
    pub fn events_between(&self, from: i64, to: i64) -> (r: Vec<EventRow>)
        ensures
            order::views(r@) == self@.events_between(from as int, to as int),
    {
        let test = |e: &StoredEvent| -> (r: bool)
            ensures r == (from < e.seen_at <= to)
        { from < e.seen_at && e.seen_at <= to };
        let rows = order::select(&self.events, test, Ghost(seen_between(from as int, to as int)));
        let before = |a: &EventRow, b: &EventRow| -> (r: bool)
            ensures r == (a.seen_at < b.seen_at || (a.seen_at == b.seen_at && a.id < b.id))
        { a.seen_at < b.seen_at || (a.seen_at == b.seen_at && a.id < b.id) };
        order::sort(self.join(&rows), before, Ghost(oldest_first()))
    }

    /// The latest events, newest first, of one project or of all.
    pub fn recent_events(&self, project_id: Option<i64>, since: i64, limit: i64) -> (r: Vec<
        EventRow,
    >)
        ensures
            order::views(r@) == self@.recent_events(project_id, since as int, limit as int),
    {
        let test = |e: &StoredEvent| -> (r: bool)
            ensures r == (e.seen_at >= since && (project_id matches Some(id) ==> e.project_id == id))
        {
            e.seen_at >= since && match project_id {
                Some(id) => e.project_id == id,
                None => true,
            }
        };
        let rows = order::select(&self.events, test, Ghost(seen_since(project_id, since as int)));
        let before = |a: &EventRow, b: &EventRow| -> (r: bool)
            ensures r == (a.seen_at > b.seen_at || (a.seen_at == b.seen_at && a.id > b.id))
        { a.seen_at > b.seen_at || (a.seen_at == b.seen_at && a.id > b.id) };
        limit_rows(order::sort(self.join(&rows), before, Ghost(newest_first())), limit)
    }

    /// When the earliest event was seen: where the first digest begins.
    pub fn earliest_event(&self) -> (r: Option<i64>)
        ensures
            r is Some <==> self@.earliest_event() is Some,
            r matches Some(t) ==> self@.earliest_event() == Some(t as int),
    {
        let mut r: Option<i64> = None;
        let ghost all = self@.events;
        let mut i: usize = 0;
        while i < self.events.len()
            invariant
                i <= self.events.len(),
                all == self@.events,
                r is Some <==> least(all.take(i as int)) is Some,
                r matches Some(t) ==> least(all.take(i as int)) == Some(t as int),
            decreases self.events.len() - i,
        {
            assert(all.take(i + 1).drop_last() =~= all.take(i as int));
            let seen_at = self.events[i].seen_at;
            r = match r {
                Some(t) => if t <= seen_at {
                    Some(t)
                } else {
                    Some(seen_at)
                },
                None => Some(seen_at),
            };
            i += 1;
        }
        assert(all.take(i as int) =~= all);
        r
    }

    // --- digests ---------------------------------------------------------

    /// Writes a digest. A plain body is kept as it is.
    pub fn insert_digest(
        &mut self,
        period_from: i64,
        period_to: i64,
        created_at: i64,
        body: &Value,
        text: &str,
    ) -> (r: Result<i64, StoreError>)
        requires
            old(self)@.wf(),
        ensures
            final(self)@.wf(),
            final(self)@ == old(self)@.insert_digest(
                period_from as int,
                period_to as int,
                created_at as int,
                json::json_view(*body),
                text@,
            ).0,
            match old(self)@.insert_digest(
                period_from as int,
                period_to as int,
                created_at as int,
                json::json_view(*body),
                text@,
            ).1 {
                Ok(id) => r matches Ok(n) && n == id,
                Err(e) => r == Err::<i64, StoreError>(e),
            },
            json::is_plain(json::json_view(*body), json::MAX_DEPTH as nat) ==> json::is_kept(
                json::json_view(*body),
            ),
    {
        let body_row = json::keep(body);
        let id_of = |d: &DigestRow| -> (r: i64)
            ensures r == d.id
        { d.id };
        match fresh(&self.digests, id_of, Ghost(digest_id_of())) {
            None => Err(StoreError::Full),
            Some(id) => {
                let row = DigestRow {
                    id,
                    period_from,
                    period_to,
                    created_at,
                    body: body_row,
                    text: text.to_owned(),
                    acked_at: None,
                };
                let ghost before = self.digests@;
                self.digests.push(row);
                proof {
                    assert(order::views(self.digests@) =~= order::views(before).push(row@));
                    lemma_next_id(digest_ids(old(self)@.digests));
                    assert forall|i: int, j: int| 0 <= i < j < self@.digests.len() implies (
                    #[trigger] self@.digests[i]).id < (#[trigger] self@.digests[j]).id by {
                        assert(self@.digests[i] == old(self)@.digests[i]);
                        if j < before.len() {
                            assert(self@.digests[j] == old(self)@.digests[j]);
                        } else {
                            assert(digest_ids(old(self)@.digests)[i] == old(self)@.digests[i].id);
                        }
                    }
                    lemma_new_digests(old(self)@, self@);
                }
                Ok(id)
            },
        }
    }

    /// When the latest period of a digest ended: where the next begins.
    pub fn last_period_to(&self) -> (r: Option<i64>)
        ensures
            r is Some <==> self@.last_period_to() is Some,
            r matches Some(t) ==> self@.last_period_to() == Some(t as int),
    {
        let mut r: Option<i64> = None;
        let ghost all = self@.digests;
        let mut i: usize = 0;
        while i < self.digests.len()
            invariant
                i <= self.digests.len(),
                all == self@.digests,
                r is Some <==> greatest(all.take(i as int)) is Some,
                r matches Some(t) ==> greatest(all.take(i as int)) == Some(t as int),
            decreases self.digests.len() - i,
        {
            assert(all.take(i + 1).drop_last() =~= all.take(i as int));
            let period_to = self.digests[i].period_to;
            r = match r {
                Some(t) => if t >= period_to {
                    Some(t)
                } else {
                    Some(period_to)
                },
                None => Some(period_to),
            };
            i += 1;
        }
        assert(all.take(i as int) =~= all);
        r
    }

    /// The digests, newest first.
    pub fn digests(&self, unread_only: bool, limit: i64) -> (r: Vec<DigestRow>)
        ensures
            order::views(r@) == self@.digest_list(unread_only, limit as int),
    {
        let test = |d: &DigestRow| -> (r: bool)
            ensures r == (unread_only ==> d.acked_at is None)
        { !unread_only || d.acked_at.is_none() };
        let rows = order::select(&self.digests, test, Ghost(is_wanted(unread_only)));
        let before = |a: &DigestRow, b: &DigestRow| -> (r: bool)
            ensures r == (a.period_to > b.period_to || (a.period_to == b.period_to && a.id > b.id))
        { a.period_to > b.period_to || (a.period_to == b.period_to && a.id > b.id) };
        limit_rows(order::sort(rows, before, Ghost(latest_first())), limit)
    }

    /// Acknowledges a digest. `false` means that there is no such digest.
    pub fn ack_digest(&mut self, id: i64, now: i64) -> (r: bool)
        requires
            old(self)@.wf(),
        ensures
            final(self)@.wf(),
            final(self)@ == old(self)@.ack_digest(id as int, now).0,
            r == old(self)@.ack_digest(id as int, now).1,
    {
        let test = |d: &DigestRow| -> (r: bool)
            ensures r == (d.id == id)
        { d.id == id };
        match order::find(&self.digests, test, Ghost(is_digest(id as int))) {
            Some(i) => {
                let ghost before = self.digests@;
                let acked = match self.digests[i].acked_at {
                    Some(t) => t,
                    None => now,
                };
                self.digests[i].acked_at = Some(acked);
                proof {
                    lemma_set_view(before, self.digests@, i as int);
                    assert(self@ =~= old(self)@.ack_digest(id as int, now).0);
                    lemma_new_digests(old(self)@, self@);
                }
                true
            },
            None => false,
        }
    }

    /// Drops the events seen and the digests ended before a moment. The branch
    /// tips stay: without them the next scan would take old history for new
    /// commits.
    pub fn prune(&mut self, before: i64) -> (r: u64)
        requires
            old(self)@.wf(),
            old(self)@.events.len() + old(self)@.digests.len() <= u64::MAX,
        ensures
            final(self)@.wf(),
            final(self)@ == old(self)@.prune(before as int).0,
            r == old(self)@.prune(before as int).1,
    {
        let recent = |e: &StoredEvent| -> (r: bool)
            ensures r == (e.seen_at >= before)
        { e.seen_at >= before };
        let events = order::select(&self.events, recent, Ghost(is_recent(before as int)));
        let recent_digest = |d: &DigestRow| -> (r: bool)
            ensures r == (d.period_to >= before)
        { d.period_to >= before };
        let digests = order::select(
            &self.digests,
            recent_digest,
            Ghost(is_recent_digest(before as int)),
        );
        proof {
            old(self)@.events.lemma_filter_len(is_recent(before as int));
            old(self)@.digests.lemma_filter_len(is_recent_digest(before as int));
            assert(order::views(events@).len() == events@.len());
            assert(order::views(digests@).len() == digests@.len());
        }
        let removed: u64 = (self.events.len() - events.len()) as u64 + (self.digests.len()
            - digests.len()) as u64;
        self.events = events;
        self.digests = digests;
        proof {
            assert(self@ =~= old(self)@.prune(before as int).0);
            lemma_kept_rows(
                old(self)@,
                is_recent(before as int),
                is_recent_digest(before as int),
            );
        }
        removed
    }
}

impl Store {
    /// Whether the tables keep their rules: rows that were read from elsewhere
    /// may be used where they do.
    pub fn is_consistent(&self) -> (r: bool)
        ensures
            r == self@.wf(),
    {
        assert(self@.projects == order::views(self.projects@));
        assert(self@.refs == order::views(self.refs@));
        assert(self@.events == order::views(self.events@));
        assert(self@.digests == order::views(self.digests@));
        let other = |a: &ProjectRow, b: &ProjectRow| -> (r: bool)
            ensures r == (a.path@ != b.path@ && a.id != b.id)
        { a.id != b.id && !text::same(a.path.as_str(), b.path.as_str()) };
        if !order::every_pair(&self.projects, other, Ghost(other_project())) {
            return false;
        }
        let other = |a: &RefRow, b: &RefRow| -> (r: bool)
            ensures r == !(a.project_id == b.project_id && a.name@ == b.name@)
        { !(a.project_id == b.project_id && text::same(a.name.as_str(), b.name.as_str())) };
        if !order::every_pair(&self.refs, other, Ghost(other_branch())) {
            return false;
        }
        let next = |a: &StoredEvent, b: &StoredEvent| -> (r: bool)
            ensures r == (a.id < b.id && !(a.sha is Some && a.project_id == b.project_id && text::text_opt(a.sha) == text::text_opt(b.sha)))
        {
            a.id < b.id && !(a.project_id == b.project_id && match (&a.sha, &b.sha) {
                (Some(x), Some(y)) => *x == *y,
                _ => false,
            })
        };
        if !order::every_pair(&self.events, next, Ghost(next_event())) {
            return false;
        }
        let next = |a: &DigestRow, b: &DigestRow| -> (r: bool)
            ensures r == (a.id < b.id)
        { a.id < b.id };
        if !order::every_pair(&self.digests, next, Ghost(next_digest())) {
            return false;
        }
        let known = |row: &RefRow| -> (r: bool)
            ensures r == self@.knows(row.project_id as int)
        { self.project_index(row.project_id).is_some() };
        if !order::every(&self.refs, known, Ghost(ref_is_known(self@))) {
            return false;
        }
        let known = |e: &StoredEvent| -> (r: bool)
            ensures r == self@.knows(e.project_id as int)
        { self.project_index(e.project_id).is_some() };
        order::every(&self.events, known, Ghost(event_is_known(self@)))
    }
}

/// The content of an optional text.
pub open spec fn str_opt(s: Option<&str>) -> Option<Seq<char>> {
    match s {
        Some(s) => Some(s@),
        None => None,
    }
}

/// Registering a project keeps the rules.
pub proof fn upsert_keeps_rules(s: StoreModel, path: Seq<char>, name: Seq<char>, now: i64)
    requires
        s.wf(),
    ensures
        s.upsert_project(path, name, now).0.wf(),
        forall|id: int| #[trigger] s.knows(id) ==> s.upsert_project(path, name, now).0.knows(id),
{
    let t = s.upsert_project(path, name, now).0;
    order::lemma_position(s.projects, with_path(path));
    match order::position(s.projects, with_path(path)) {
        Some(i) => {
            lemma_same_ids(s, t);
        },
        None => {
            if next_id(project_ids(s.projects)) <= i64::MAX {
                lemma_new_project(s, t.projects.last());
                assert(t =~= (StoreModel { projects: s.projects.push(t.projects.last()), ..s }));
            }
        },
    }
}

/// Marking a project as gone keeps the rules.
pub proof fn mark_removed_keeps_rules(s: StoreModel, id: int, now: i64)
    requires
        s.wf(),
    ensures
        s.mark_removed(id, now).wf(),
        forall|other: int| s.mark_removed(id, now).knows(other) == s.knows(other),
{
    order::lemma_position(s.projects, with_id(id));
    lemma_same_ids(s, s.mark_removed(id, now));
}

/// Keeping what a scan saw keeps the rules.
pub proof fn save_snapshot_keeps_rules(s: StoreModel, id: int, snapshot: SnapshotModel, now: i64)
    requires
        s.wf(),
    ensures
        s.save_snapshot(id, snapshot, now).wf(),
        forall|other: int| s.save_snapshot(id, snapshot, now).knows(other) == s.knows(other),
{
    order::lemma_position(s.projects, with_id(id));
    lemma_same_ids(s, s.save_snapshot(id, snapshot, now));
}

/// Setting a tip keeps the rules.
pub proof fn set_ref_keeps_rules(s: StoreModel, project_id: int, name: Seq<char>, sha: Seq<char>)
    requires
        s.wf(),
    ensures
        s.set_ref(project_id, name, sha).0.wf(),
{
    let t = s.set_ref(project_id, name, sha).0;
    order::lemma_position(s.refs, is_ref(project_id, name));
    if s.knows(project_id) {
        match order::position(s.refs, is_ref(project_id, name)) {
            Some(i) => {
                lemma_new_refs(s, t);
            },
            None => {
                assert forall|i: int, j: int| 0 <= i < j < t.refs.len() implies (other_branch())(
                    #[trigger] t.refs[i],
                    #[trigger] t.refs[j],
                ) by {
                    assert(t.refs[i] == s.refs[i]);
                    if j < s.refs.len() {
                        assert(t.refs[j] == s.refs[j]);
                    } else {
                        assert(!(is_ref(project_id, name))(s.refs[i]));
                    }
                }
                assert forall|i: int| 0 <= i < t.refs.len() implies t.knows(
                    (#[trigger] t.refs[i]).project_id,
                ) by {
                    if i < s.refs.len() {
                        assert(t.refs[i] == s.refs[i]);
                        assert(s.knows(s.refs[i].project_id));
                    }
                }
            },
        }
    }
}

/// Dropping a branch keeps the rules.
pub proof fn delete_ref_keeps_rules(s: StoreModel, project_id: int, name: Seq<char>)
    requires
        s.wf(),
    ensures
        s.delete_ref(project_id, name).wf(),
{
    lemma_kept_refs(s, is_other_ref(project_id, name));
}

/// Writing an event keeps the rules.
pub proof fn insert_event_keeps_rules(
    s: StoreModel,
    project_id: int,
    kind: Seq<char>,
    seen_at: i64,
    sha: Option<Seq<char>>,
    payload: Json,
)
    requires
        s.wf(),
    ensures
        s.insert_event(project_id, kind, seen_at, sha, payload).0.wf(),
        forall|id: int|
            s.insert_event(project_id, kind, seen_at, sha, payload).0.knows(id) == s.knows(id),
{
    let (t, r) = s.insert_event(project_id, kind, seen_at, sha, payload);
    order::lemma_position(s.projects, with_id(project_id));
    if r == Ok::<bool, StoreError>(true) {
        let middle = StoreModel { projects: t.projects, ..s };
        lemma_same_ids(s, middle);
        lemma_new_event(middle, t.events.last());
        assert(t =~= (StoreModel { events: middle.events.push(t.events.last()), ..middle }));
        assert forall|id: int| t.knows(id) == s.knows(id) by {
            assert(middle.knows(id) == s.knows(id));
        }
    }
}

/// Branch rows that keep project and name keep the tables consistent.
proof fn lemma_new_refs(a: StoreModel, b: StoreModel)
    requires
        a.wf(),
        b.projects == a.projects,
        b.events == a.events,
        b.digests == a.digests,
        b.refs.len() == a.refs.len(),
        forall|i: int|
            0 <= i < a.refs.len() ==> (#[trigger] b.refs[i]).project_id == a.refs[i].project_id
                && b.refs[i].name == a.refs[i].name,
    ensures
        b.wf(),
{
    assert forall|i: int, j: int| 0 <= i < j < b.refs.len() implies !((
    #[trigger] b.refs[i]).project_id == (#[trigger] b.refs[j]).project_id && b.refs[i].name
        == b.refs[j].name) by {
        assert(a.refs[i].project_id == b.refs[i].project_id);
        assert(a.refs[j].project_id == b.refs[j].project_id);
    }
    assert forall|id: int| b.knows(id) == a.knows(id) by {}
    assert forall|i: int| 0 <= i < b.refs.len() implies b.knows(
        (#[trigger] b.refs[i]).project_id,
    ) by {
        assert(a.knows(a.refs[i].project_id));
    }
    assert forall|i: int| 0 <= i < b.events.len() implies b.knows(
        (#[trigger] b.events[i]).project_id,
    ) by {
        assert(a.knows(a.events[i].project_id));
    }
}

/// Digest rows in the order of their identifiers keep the tables consistent.
proof fn lemma_new_digests(a: StoreModel, b: StoreModel)
    requires
        a.wf(),
        b.projects == a.projects,
        b.events == a.events,
        b.refs == a.refs,
        forall|i: int, j: int|
            0 <= i < j < b.digests.len() ==> (#[trigger] b.digests[i]).id < (
            #[trigger] b.digests[j]).id,
    ensures
        b.wf(),
{
    assert forall|id: int| b.knows(id) == a.knows(id) by {}
    assert forall|i: int| 0 <= i < b.refs.len() implies b.knows(
        (#[trigger] b.refs[i]).project_id,
    ) by {
        assert(a.knows(a.refs[i].project_id));
    }
    assert forall|i: int| 0 <= i < b.events.len() implies b.knows(
        (#[trigger] b.events[i]).project_id,
    ) by {
        assert(a.knows(a.events[i].project_id));
    }
}

/// A new event keeps the tables consistent.
proof fn lemma_new_event(a: StoreModel, e: StoredModel)
    requires
        a.wf(),
        e.id == next_id(event_ids(a.events)),
        a.knows(e.project_id),
        e.sha matches Some(s) ==> order::position(a.events, is_about(e.project_id, s)) is None,
    ensures
        (StoreModel { events: a.events.push(e), ..a }).wf(),
{
    let b = StoreModel { events: a.events.push(e), ..a };
    lemma_next_id(event_ids(a.events));
    if e.sha is Some {
        order::lemma_position(a.events, is_about(e.project_id, e.sha->Some_0));
    }
    assert forall|i: int, j: int| 0 <= i < j < b.events.len() implies {
        &&& (#[trigger] b.events[i]).id < (#[trigger] b.events[j]).id
        &&& !(b.events[i].sha is Some && b.events[i].project_id == b.events[j].project_id
            && b.events[i].sha == b.events[j].sha)
    } by {
        assert(b.events[i] == a.events[i]);
        if j < a.events.len() {
            assert(b.events[j] == a.events[j]);
        } else {
            assert(event_ids(a.events)[i] == a.events[i].id);
            if e.sha is Some {
                assert(!(is_about(e.project_id, e.sha->Some_0))(a.events[i]));
            }
        }
    }
    assert forall|id: int| b.knows(id) == a.knows(id) by {}
    assert forall|i: int| 0 <= i < b.refs.len() implies b.knows(
        (#[trigger] b.refs[i]).project_id,
    ) by {
        assert(a.knows(a.refs[i].project_id));
    }
    assert forall|i: int| 0 <= i < b.events.len() implies b.knows(
        (#[trigger] b.events[i]).project_id,
    ) by {
        if i < a.events.len() {
            assert(a.knows(a.events[i].project_id));
        }
    }
}

/// Keeping some of the branches keeps the tables consistent.
proof fn lemma_kept_refs(a: StoreModel, p: spec_fn(RefModel) -> bool)
    requires
        a.wf(),
    ensures
        (StoreModel { refs: a.refs.filter(p), ..a }).wf(),
{
    let b = StoreModel { refs: a.refs.filter(p), ..a };
    order::lemma_kept_from(a.refs, p);
    let from = order::kept_from(a.refs, p);
    assert forall|i: int, j: int| 0 <= i < j < b.refs.len() implies !((
    #[trigger] b.refs[i]).project_id == (#[trigger] b.refs[j]).project_id && b.refs[i].name
        == b.refs[j].name) by {
        assert(from[i] < from[j]);
        assert(a.refs[from[i]] == b.refs[i]);
        assert(a.refs[from[j]] == b.refs[j]);
    }
    assert forall|id: int| b.knows(id) == a.knows(id) by {}
    assert forall|i: int| 0 <= i < b.refs.len() implies b.knows(
        (#[trigger] b.refs[i]).project_id,
    ) by {
        assert(a.refs[from[i]] == b.refs[i]);
        assert(a.knows(a.refs[from[i]].project_id));
    }
    assert forall|i: int| 0 <= i < b.events.len() implies b.knows(
        (#[trigger] b.events[i]).project_id,
    ) by {
        assert(a.knows(a.events[i].project_id));
    }
}

/// Keeping some of the events and digests keeps the tables consistent.
proof fn lemma_kept_rows(
    a: StoreModel,
    p: spec_fn(StoredModel) -> bool,
    q: spec_fn(DigestRowModel) -> bool,
)
    requires
        a.wf(),
    ensures
        (StoreModel { events: a.events.filter(p), digests: a.digests.filter(q), ..a }).wf(),
{
    let b = StoreModel { events: a.events.filter(p), digests: a.digests.filter(q), ..a };
    order::lemma_kept_from(a.events, p);
    order::lemma_kept_from(a.digests, q);
    let from = order::kept_from(a.events, p);
    let from_digests = order::kept_from(a.digests, q);
    assert forall|i: int, j: int| 0 <= i < j < b.events.len() implies {
        &&& (#[trigger] b.events[i]).id < (#[trigger] b.events[j]).id
        &&& !(b.events[i].sha is Some && b.events[i].project_id == b.events[j].project_id
            && b.events[i].sha == b.events[j].sha)
    } by {
        assert(from[i] < from[j]);
        assert(a.events[from[i]] == b.events[i]);
        assert(a.events[from[j]] == b.events[j]);
    }
    assert forall|i: int, j: int| 0 <= i < j < b.digests.len() implies (
    #[trigger] b.digests[i]).id < (#[trigger] b.digests[j]).id by {
        assert(from_digests[i] < from_digests[j]);
        assert(a.digests[from_digests[i]] == b.digests[i]);
        assert(a.digests[from_digests[j]] == b.digests[j]);
    }
    assert forall|id: int| b.knows(id) == a.knows(id) by {}
    assert forall|i: int| 0 <= i < b.refs.len() implies b.knows(
        (#[trigger] b.refs[i]).project_id,
    ) by {
        assert(a.knows(a.refs[i].project_id));
    }
    assert forall|i: int| 0 <= i < b.events.len() implies b.knows(
        (#[trigger] b.events[i]).project_id,
    ) by {
        assert(a.events[from[i]] == b.events[i]);
        assert(a.knows(a.events[from[i]].project_id));
    }
}

/// Tables whose projects keep identifiers and paths stay consistent.
proof fn lemma_same_ids(a: StoreModel, b: StoreModel)
    requires
        a.wf(),
        b.refs == a.refs,
        b.events == a.events,
        b.digests == a.digests,
        b.projects.len() == a.projects.len(),
        forall|i: int|
            0 <= i < a.projects.len() ==> (#[trigger] b.projects[i]).id == a.projects[i].id
                && b.projects[i].path == a.projects[i].path,
    ensures
        b.wf(),
        forall|id: int| b.knows(id) == a.knows(id),
        forall|id: int|
            #![trigger order::position(b.projects, with_id(id))]
            order::position(b.projects, with_id(id)) == order::position(a.projects, with_id(id)),
{
    assert forall|id: int|
        #![trigger order::position(b.projects, with_id(id))]
        order::position(b.projects, with_id(id)) == order::position(a.projects, with_id(id)) by {
        order::lemma_position(a.projects, with_id(id));
        order::lemma_position(b.projects, with_id(id));
        match order::position(a.projects, with_id(id)) {
            Some(i) => {
                assert(b.projects[i].id == a.projects[i].id);
                assert forall|j: int| 0 <= j < i implies !(with_id(id))(
                    #[trigger] b.projects[j],
                ) by {
                    assert(!(with_id(id))(a.projects[j]));
                }
                order::lemma_position_is(b.projects, with_id(id), i);
            },
            None => {
                if order::position(b.projects, with_id(id)) is Some {
                    let k = order::position(b.projects, with_id(id))->Some_0;
                    assert(b.projects[k].id == a.projects[k].id);
                    assert(!(with_id(id))(a.projects[k]));
                }
            },
        }
    }
    assert forall|id: int| b.knows(id) == a.knows(id) by {
        assert(order::position(b.projects, with_id(id)) == order::position(
            a.projects,
            with_id(id),
        ));
    }
    assert forall|i: int, j: int| 0 <= i < j < b.projects.len() implies (
    #[trigger] b.projects[i]).path != (#[trigger] b.projects[j]).path && b.projects[i].id
        != b.projects[j].id by {
        assert(a.projects[i].path != a.projects[j].path);
    }
}

/// A project with a new identifier and a new path keeps the tables
/// consistent.
proof fn lemma_new_project(a: StoreModel, p: ProjectModel)
    requires
        a.wf(),
        p.id == next_id(project_ids(a.projects)),
        order::position(a.projects, with_path(p.path)) is None,
    ensures
        (StoreModel { projects: a.projects.push(p), ..a }).wf(),
        forall|id: int| #[trigger] a.knows(id) ==> (StoreModel { projects: a.projects.push(p), ..a }).knows(id),
{
    let b = StoreModel { projects: a.projects.push(p), ..a };
    lemma_next_id(project_ids(a.projects));
    order::lemma_position(a.projects, with_path(p.path));
    assert forall|i: int| 0 <= i < a.projects.len() implies (#[trigger] a.projects[i]).id != p.id
        && a.projects[i].path != p.path by {
        assert(project_ids(a.projects)[i] == a.projects[i].id);
        assert(!(with_path(p.path))(a.projects[i]));
    }
    assert forall|id: int| #[trigger] a.knows(id) implies b.knows(id) by {
        assert(b.projects.drop_last() =~= a.projects);
    }
    assert forall|i: int| 0 <= i < b.refs.len() implies b.knows(
        (#[trigger] b.refs[i]).project_id,
    ) by {
        assert(a.knows(a.refs[i].project_id));
    }
    assert forall|i: int| 0 <= i < b.events.len() implies b.knows(
        (#[trigger] b.events[i]).project_id,
    ) by {
        assert(a.knows(a.events[i].project_id));
    }
}

} // verus!
