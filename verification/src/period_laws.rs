//! What the digest of a period tells of the events in the journal.

use crate::digest;
use crate::digest::{CommitBriefModel, DigestModel, LabelsModel, ProjectDigestModel, TotalsModel, UncommittedModel};
use crate::digest_laws;
use crate::json;
use crate::json::Json;
use crate::order;
use crate::store;
use crate::store::{DigestRowModel, EventModel, ProjectModel, StoreModel, StoredModel};
use crate::store_laws;
use crate::text;
use crate::journal_laws;
use vstd::prelude::*;

verus! {

// --- values --------------------------------------------------------------

/// The array at `key`, or nothing.
pub open spec fn list_at(j: Json, key: Seq<char>) -> Seq<Json> {
    match json::json_field(j, key) {
        Some(Json::List(items)) => items,
        _ => seq![],
    }
}

/// Whether an array at `key` holds exactly the texts, in order.
pub open spec fn holds_texts(j: Json, key: Seq<char>, texts: Seq<Seq<char>>) -> bool {
    &&& list_at(j, key).len() == texts.len()
    &&& forall|i: int| 0 <= i < texts.len() ==> #[trigger] list_at(j, key)[i] == Json::Text(texts[i])
}

/// Whether a number at `key` is `n`.
pub open spec fn holds_count(j: Json, key: Seq<char>, n: nat) -> bool {
    json::json_field(j, key) == Some(Json::Number(text::decimal(n)))
}

/// Whether a value holds a commit.
pub open spec fn holds_commit(j: Json, c: CommitBriefModel) -> bool {
    &&& json::json_field(j, "sha"@) == Some(Json::Text(c.sha))
    &&& json::json_field(j, "branch"@) == Some(Json::Text(c.branch))
    &&& json::json_field(j, "author"@) == Some(Json::Text(c.author))
    &&& json::json_field(j, "subject"@) == Some(Json::Text(c.subject))
    &&& holds_count(j, "insertions"@, c.insertions)
    &&& holds_count(j, "deletions"@, c.deletions)
}

/// Whether a value holds what happened in a project.
pub open spec fn holds_project(j: Json, p: ProjectDigestModel) -> bool {
    &&& json::json_field(j, "name"@) == Some(Json::Text(p.name))
    &&& json::json_field(j, "branch"@) == Some(
        match p.branch {
            Some(b) => Json::Text(b),
            None => Json::Null,
        },
    )
    &&& list_at(j, "commits"@).len() == p.commits.len()
    &&& forall|i: int|
        0 <= i < p.commits.len() ==> holds_commit(#[trigger] list_at(j, "commits"@)[i], p.commits[i])
    &&& holds_texts(j, "authors"@, p.authors)
    &&& holds_count(j, "insertions"@, p.insertions)
    &&& holds_count(j, "deletions"@, p.deletions)
    &&& holds_texts(j, "branches_created"@, p.branches_created)
    &&& holds_texts(j, "branches_deleted"@, p.branches_deleted)
    &&& holds_texts(j, "checkouts"@, p.checkouts)
    &&& json::json_field(j, "uncommitted_files"@) == Some(
        Json::Number(text::decimal_signed(p.uncommitted_files)),
    )
}

/// Whether a value holds uncommitted work.
pub open spec fn holds_uncommitted(j: Json, u: UncommittedModel) -> bool {
    &&& json::json_field(j, "name"@) == Some(Json::Text(u.name))
    &&& json::json_field(j, "files"@) == Some(Json::Number(text::decimal_signed(u.files)))
}

/// Whether a value holds totals.
pub open spec fn holds_totals(j: Json, t: TotalsModel) -> bool {
    &&& holds_count(j, "projects"@, t.projects)
    &&& holds_count(j, "commits"@, t.commits)
    &&& holds_count(j, "insertions"@, t.insertions)
    &&& holds_count(j, "deletions"@, t.deletions)
}

/// Whether a value holds a digest.
pub open spec fn holds_digest(j: Json, d: DigestModel) -> bool {
    &&& json::json_field(j, "period_from"@) == Some(Json::Text(d.period_from))
    &&& json::json_field(j, "period_to"@) == Some(Json::Text(d.period_to))
    &&& json::json_field(j, "totals"@) matches Some(t) && holds_totals(t, d.totals)
    &&& list_at(j, "projects"@).len() == d.projects.len()
    &&& forall|k: int|
        0 <= k < d.projects.len() ==> holds_project(
            #[trigger] list_at(j, "projects"@)[k],
            d.projects[k],
        )
    &&& holds_texts(j, "added_projects"@, d.added_projects)
    &&& holds_texts(j, "removed_projects"@, d.removed_projects)
    &&& list_at(j, "uncommitted_elsewhere"@).len() == d.uncommitted_elsewhere.len()
    &&& forall|k: int|
        0 <= k < d.uncommitted_elsewhere.len() ==> holds_uncommitted(
            #[trigger] list_at(j, "uncommitted_elsewhere"@)[k],
            d.uncommitted_elsewhere[k],
        )
}

proof fn lemma_commit_value(c: CommitBriefModel)
    ensures
        holds_commit((digest::commit_json())(c), c),
{
    reveal_strlit("sha");
    reveal_strlit("branch");
    reveal_strlit("author");
    reveal_strlit("subject");
    reveal_strlit("insertions");
    reveal_strlit("deletions");
    assert("sha"@.len() == 3 && "branch"@.len() == 6 && "author"@.len() == 6);
    assert("subject"@.len() == 7 && "insertions"@.len() == 10 && "deletions"@.len() == 9);
    assert("branch"@[0] == 'b' && "author"@[0] == 'a');
}

proof fn lemma_totals_value(t: TotalsModel)
    ensures
        holds_totals(digest::totals_json(t), t),
{
    reveal_strlit("projects");
    reveal_strlit("commits");
    reveal_strlit("insertions");
    reveal_strlit("deletions");
    assert("projects"@.len() == 8 && "commits"@.len() == 7);
    assert("insertions"@.len() == 10 && "deletions"@.len() == 9);
}

proof fn lemma_uncommitted_value(u: UncommittedModel)
    ensures
        holds_uncommitted((digest::uncommitted_json())(u), u),
{
    reveal_strlit("name");
    reveal_strlit("files");
    assert("name"@.len() == 4 && "files"@.len() == 5);
}

proof fn lemma_project_value(p: ProjectDigestModel)
    ensures
        holds_project((digest::project_json())(p), p),
{
    reveal_strlit("name");
    reveal_strlit("branch");
    reveal_strlit("commits");
    reveal_strlit("authors");
    reveal_strlit("insertions");
    reveal_strlit("deletions");
    reveal_strlit("branches_created");
    reveal_strlit("branches_deleted");
    reveal_strlit("checkouts");
    reveal_strlit("uncommitted_files");
    assert("name"@.len() == 4 && "branch"@.len() == 6 && "commits"@.len() == 7);
    assert("authors"@.len() == 7 && "insertions"@.len() == 10 && "deletions"@.len() == 9);
    assert("branches_created"@.len() == 16 && "branches_deleted"@.len() == 16);
    assert("checkouts"@.len() == 9 && "uncommitted_files"@.len() == 17);
    assert("commits"@[0] == 'c' && "authors"@[0] == 'a');
    assert("deletions"@[0] == 'd' && "checkouts"@[0] == 'c');
    assert("branches_created"@[9] == 'c' && "branches_deleted"@[9] == 'd');
    let j = (digest::project_json())(p);
    let commits = p.commits.map_values(digest::commit_json());
    assert(list_at(j, "commits"@) == commits);
    assert forall|i: int| 0 <= i < p.commits.len() implies holds_commit(
        #[trigger] list_at(j, "commits"@)[i],
        p.commits[i],
    ) by {
        assert(commits[i] == (digest::commit_json())(p.commits[i]));
        lemma_commit_value(p.commits[i]);
    }
}

/// The value of a digest holds, under each name, what the digest holds.
pub proof fn the_value_holds_the_digest(d: DigestModel)
    ensures
        holds_digest(digest::digest_json(d), d),
{
    reveal_strlit("period_from");
    reveal_strlit("period_to");
    reveal_strlit("totals");
    reveal_strlit("projects");
    reveal_strlit("added_projects");
    reveal_strlit("removed_projects");
    reveal_strlit("uncommitted_elsewhere");
    assert("period_from"@.len() == 11 && "period_to"@.len() == 9 && "totals"@.len() == 6);
    assert("projects"@.len() == 8 && "added_projects"@.len() == 14);
    assert("removed_projects"@.len() == 16 && "uncommitted_elsewhere"@.len() == 21);
    let j = digest::digest_json(d);
    lemma_totals_value(d.totals);
    let projects = d.projects.map_values(digest::project_json());
    assert(list_at(j, "projects"@) == projects);
    assert forall|k: int| 0 <= k < d.projects.len() implies holds_project(
        #[trigger] list_at(j, "projects"@)[k],
        d.projects[k],
    ) by {
        assert(projects[k] == (digest::project_json())(d.projects[k]));
        lemma_project_value(d.projects[k]);
    }
    let left = d.uncommitted_elsewhere.map_values(digest::uncommitted_json());
    assert(list_at(j, "uncommitted_elsewhere"@) == left);
    assert forall|k: int| 0 <= k < d.uncommitted_elsewhere.len() implies holds_uncommitted(
        #[trigger] list_at(j, "uncommitted_elsewhere"@)[k],
        d.uncommitted_elsewhere[k],
    ) by {
        assert(left[k] == (digest::uncommitted_json())(d.uncommitted_elsewhere[k]));
        lemma_uncommitted_value(d.uncommitted_elsewhere[k]);
    }
}

// --- events --------------------------------------------------------------

/// Commits that were seen in a period.
pub open spec fn is_commit_between(from: int, to: int) -> spec_fn(StoredModel) -> bool {
    |e: StoredModel| e.kind == "commit"@ && from < e.seen_at && e.seen_at <= to
}

/// What the payloads of the commits of a period weigh together.
pub open spec fn weight(s: StoreModel, from: int, to: int, unit: spec_fn(Json) -> nat) -> nat {
    order::sum(s.events.filter(is_commit_between(from, to)), |e: StoredModel| unit(e.payload))
}

/// The lines that a payload says were added.
pub open spec fn lines_added() -> spec_fn(Json) -> nat {
    |payload: Json| json::count_at(payload, "insertions"@) as nat
}

/// The lines that a payload says were removed.
pub open spec fn lines_removed() -> spec_fn(Json) -> nat {
    |payload: Json| json::count_at(payload, "deletions"@) as nat
}

/// What a payload says of a commit.
pub open spec fn said_of_commit(payload: Json) -> CommitBriefModel {
    CommitBriefModel {
        sha: order::first(json::text_at(payload, "sha"@), 7),
        branch: json::text_at(payload, "branch"@),
        author: json::text_at(payload, "author"@),
        subject: json::text_at(payload, "subject"@),
        insertions: json::count_at(payload, "insertions"@) as nat,
        deletions: json::count_at(payload, "deletions"@) as nat,
    }
}

/// Whether a digest has a section for the project, in which the event is told.
pub open spec fn tells_event(
    d: DigestModel,
    project: Seq<char>,
    kind: Seq<char>,
    payload: Json,
) -> bool {
    if kind == "project_added"@ {
        d.added_projects.contains(project)
    } else if kind == "project_removed"@ {
        d.removed_projects.contains(project)
    } else {
        exists|k: int|
            0 <= k < d.projects.len() && ({
                let p = #[trigger] d.projects[k];
                &&& p.name == project
                &&& kind == "commit"@ ==> p.commits.contains(said_of_commit(payload))
                    && p.authors.contains(json::text_at(payload, "author"@))
                &&& kind == "branch_created"@ ==> p.branches_created.contains(
                    json::text_at(payload, "branch"@),
                )
                &&& kind == "branch_deleted"@ ==> p.branches_deleted.contains(
                    json::text_at(payload, "branch"@),
                )
                &&& kind == "checkout"@ ==> p.checkouts.contains(json::text_at(payload, "to"@))
            })
    }
}

proof fn lemma_filtered_holds<B>(
    events: Seq<EventModel>,
    p: spec_fn(EventModel) -> bool,
    f: spec_fn(EventModel) -> B,
    e: EventModel,
)
    requires
        events.contains(e),
        p(e),
    ensures
        events.filter(p).map_values(f).contains(f(e)),
{
    order::lemma_filter_contains(events, p);
    let kept = events.filter(p);
    assert(kept.contains(e));
    let k = choose|k: int| 0 <= k < kept.len() && kept[k] == e;
    assert(kept.map_values(f)[k] == f(e));
}

/// Every event is told in the digest of the events it is among.
pub proof fn every_event_is_told(
    events: Seq<EventModel>,
    projects: Seq<ProjectModel>,
    period_from: Seq<char>,
    period_to: Seq<char>,
    i: int,
)
    requires
        0 <= i < events.len(),
    ensures
        tells_event(
            digest::digest_of(events, projects, period_from, period_to),
            events[i].project,
            events[i].kind,
            events[i].payload,
        ),
{
    let d = digest::digest_of(events, projects, period_from, period_to);
    let e = events[i];
    let name = e.project;
    assert(events.contains(e));
    if e.kind == "project_added"@ {
        lemma_filtered_holds(
            events,
            digest::of_kind("project_added"@),
            digest::project_of(),
            e,
        );
    } else if e.kind == "project_removed"@ {
        lemma_filtered_holds(
            events,
            digest::of_kind("project_removed"@),
            digest::project_of(),
            e,
        );
    } else {
        digest::every_busy_project_has_one_section(events, projects);
        assert((digest::is_work())(events[i]));
        let names = digest::busy_names(events);
        assert(names.contains(name));
        let m = choose|m: int| 0 <= m < names.len() && names[m] == name;
        let sections = names.map_values(digest::project_digest_for(events, projects));
        let p = digest::project_digest(events, projects, name);
        assert(sections[m] == p);
        order::sorted_is_permutation(sections, digest::busiest_first());
        assert(sections.contains(p));
        assert(d.projects.contains(p));
        let k = choose|k: int| 0 <= k < d.projects.len() && d.projects[k] == p;
        if e.kind == "commit"@ {
            lemma_filtered_holds(
                events,
                digest::in_project(name, "commit"@),
                digest::brief_of(),
                e,
            );
            assert((digest::brief_of())(e) == said_of_commit(e.payload));
            assert(p.commits.contains(said_of_commit(e.payload)));
            let c = choose|c: int| 0 <= c < p.commits.len() && p.commits[c] == said_of_commit(
                e.payload,
            );
            let authors = p.commits.map_values(digest::author_of());
            assert(authors[c] == json::text_at(e.payload, "author"@));
            order::lemma_distinct(authors);
            assert(authors.contains(json::text_at(e.payload, "author"@)));
        }
        if e.kind == "branch_created"@ {
            lemma_filtered_holds(
                events,
                digest::in_project(name, "branch_created"@),
                digest::field_of("branch"@),
                e,
            );
        }
        if e.kind == "branch_deleted"@ {
            lemma_filtered_holds(
                events,
                digest::in_project(name, "branch_deleted"@),
                digest::field_of("branch"@),
                e,
            );
        }
        if e.kind == "checkout"@ {
            lemma_filtered_holds(
                events,
                digest::in_project(name, "checkout"@),
                digest::field_of("to"@),
                e,
            );
        }
        assert(d.projects[k].name == name);
    }
}

// --- sums ----------------------------------------------------------------

/// What an event weighs by its payload, if it is about a commit.
spec fn event_weight(unit: spec_fn(Json) -> nat) -> spec_fn(EventModel) -> nat {
    |e: EventModel|
        if e.kind == "commit"@ {
            unit(e.payload)
        } else {
            0
        }
}

proof fn lemma_commits_weigh(
    events: Seq<EventModel>,
    of: spec_fn(CommitBriefModel) -> nat,
    unit: spec_fn(Json) -> nat,
)
    requires
        forall|e: EventModel| of(#[trigger] (digest::brief_of())(e)) == unit(e.payload),
    ensures
        order::sum(digest::all_commits(events), of) == order::sum(events, event_weight(unit)),
    decreases events.len(),
{
    reveal(Seq::filter);
    if events.len() > 0 {
        let rest = events.drop_last();
        let e = events.last();
        lemma_commits_weigh(rest, of, unit);
        if e.kind == "commit"@ {
            assert(digest::all_commits(events) =~= digest::all_commits(rest).push(
                (digest::brief_of())(e),
            ));
            order::lemma_sum_push(digest::all_commits(rest), (digest::brief_of())(e), of);
        } else {
            assert(digest::all_commits(events) =~= digest::all_commits(rest));
        }
    } else {
        assert(digest::all_commits(events) =~= Seq::<CommitBriefModel>::empty());
    }
}

proof fn lemma_stored_weigh(
    s: StoreModel,
    events: Seq<StoredModel>,
    from: int,
    to: int,
    unit: spec_fn(Json) -> nat,
)
    ensures
        order::sum(
            events.filter(store::seen_between(from, to)),
            |e: StoredModel| (event_weight(unit))(s.joined(e)),
        ) == order::sum(
            events.filter(is_commit_between(from, to)),
            |e: StoredModel| unit(e.payload),
        ),
    decreases events.len(),
{
    reveal(Seq::filter);
    let f = |e: StoredModel| (event_weight(unit))(s.joined(e));
    let g = |e: StoredModel| unit(e.payload);
    if events.len() > 0 {
        let rest = events.drop_last();
        let e = events.last();
        lemma_stored_weigh(s, rest, from, to, unit);
        if from < e.seen_at <= to {
            order::lemma_sum_push(rest.filter(store::seen_between(from, to)), e, f);
            if e.kind == "commit"@ {
                order::lemma_sum_push(rest.filter(is_commit_between(from, to)), e, g);
            }
        }
    }
}

/// What the commits of the events of a period weigh, by their payloads.
proof fn lemma_period_weighs(
    s: StoreModel,
    from: int,
    to: int,
    of: spec_fn(CommitBriefModel) -> nat,
    unit: spec_fn(Json) -> nat,
)
    requires
        forall|e: EventModel| of(#[trigger] (digest::brief_of())(e)) == unit(e.payload),
    ensures
        order::sum(digest::all_commits(s.events_between(from, to)), of) == weight(
            s,
            from,
            to,
            unit,
        ),
{
    let kept = s.events.filter(store::seen_between(from, to));
    let joined = s.joined_all(kept);
    let w = event_weight(unit);
    lemma_commits_weigh(s.events_between(from, to), of, unit);
    order::lemma_sum_sorted(joined, store::oldest_first(), w);
    order::lemma_sum_map(kept, |e: StoredModel| s.joined(e), w);
    lemma_stored_weigh(s, s.events, from, to, unit);
    let f = |e: StoredModel| w(s.joined(e));
    let g = |e: StoredModel| (event_weight(unit))(s.joined(e));
    order::lemma_sum_same(kept, f, g);
    order::lemma_sum_same(kept, f, |e: StoredModel| w((|e: StoredModel| s.joined(e))(e)));
}

proof fn lemma_ones<A>(list: Seq<A>, f: spec_fn(A) -> nat)
    requires
        forall|a: A| #[trigger] f(a) == 1,
    ensures
        order::sum(list, f) == list.len(),
    decreases list.len(),
{
    if list.len() > 0 {
        lemma_ones(list.drop_last(), f);
    }
}

/// Whether a digest tells all that the journal holds of a period: every commit
/// is counted once and told, and every other event is told.
pub open spec fn tells_period(s: StoreModel, from: int, to: int, d: DigestModel) -> bool {
    &&& d.totals.commits == s.events.filter(is_commit_between(from, to)).len()
    &&& d.totals.insertions == weight(s, from, to, lines_added())
    &&& d.totals.deletions == weight(s, from, to, lines_removed())
    &&& d.totals.projects == d.projects.len()
    &&& forall|i: int|
        0 <= i < s.events.len() && from < (#[trigger] s.events[i]).seen_at && s.events[i].seen_at
            <= to ==> tells_event(
            d,
            s.name_of(s.events[i].project_id),
            s.events[i].kind,
            s.events[i].payload,
        )
}

/// Whether the row of a digest is that of the period: its value and its text
/// tell all that the journal holds of it.
pub open spec fn is_row_of_period(
    s: StoreModel,
    from: int,
    to: int,
    labels: LabelsModel,
    row: DigestRowModel,
) -> bool {
    &&& row.period_from == from && row.period_to == to && row.created_at == to
    &&& row.acked_at is None
    &&& exists|d: DigestModel|
        {
            &&& #[trigger] holds_digest(row.body, d)
            &&& tells_period(s, from, to, d)
            &&& d.period_from == labels.period_from && d.period_to == labels.period_to
            &&& ("## Активность "@ + labels.shown_from + " — "@ + labels.shown_to
                + "\n"@).is_prefix_of(row.text)
            &&& digest_laws::tells_totals(row.text, d.totals)
            &&& digest_laws::tells_lists(row.text, d)
            &&& forall|k: int|
                0 <= k < d.projects.len() ==> digest_laws::tells_name(
                    row.text,
                    #[trigger] d.projects[k],
                ) && digest_laws::tells_commits(row.text, d.projects[k])
                    && digest_laws::tells_branches(row.text, d.projects[k])
                    && digest_laws::tells_uncommitted(row.text, d.projects[k])
        }
}

pub proof fn lemma_period_told(
    s: StoreModel,
    from: int,
    to: int,
    period_from: Seq<char>,
    period_to: Seq<char>,
)
    ensures
        tells_period(
            s,
            from,
            to,
            digest::digest_of(s.events_between(from, to), s.by_name(), period_from, period_to),
        ),
{
    let events = s.events_between(from, to);
    let projects = s.by_name();
    let d = digest::digest_of(events, projects, period_from, period_to);
    digest::totals_count_every_commit(events, projects);
    let one = |payload: Json| 1nat;
    lemma_period_weighs(s, from, to, digest::one(), one);
    lemma_ones(digest::all_commits(events), digest::one());
    lemma_ones(
        s.events.filter(is_commit_between(from, to)),
        |e: StoredModel| one(e.payload),
    );
    lemma_period_weighs(s, from, to, digest::insertions_of(), lines_added());
    lemma_period_weighs(s, from, to, digest::deletions_of(), lines_removed());
    assert forall|i: int|
        0 <= i < s.events.len() && from < (#[trigger] s.events[i]).seen_at && s.events[i].seen_at
            <= to implies tells_event(
        d,
        s.name_of(s.events[i].project_id),
        s.events[i].kind,
        s.events[i].payload,
    ) by {
        store_laws::a_period_holds_its_events(s, from, to);
        let e = s.joined(s.events[i]);
        assert(events.contains(e));
        let k = choose|k: int| 0 <= k < events.len() && events[k] == e;
        every_event_is_told(events, projects, period_from, period_to, k);
    }
}

/// A digest that is composed tells all that the journal holds of its period:
/// it counts every commit once, and every event of the period is in it.
pub proof fn a_composed_digest_tells_its_period(
    s: StoreModel,
    from: int,
    to: int,
    labels: LabelsModel,
)
    ensures
        is_row_of_period(s, from, to, labels, digest::composed_row(s, from, to, labels)),
{
    let row = digest::composed_row(s, from, to, labels);
    let d = digest::digest_of(
        s.events_between(from, to),
        s.by_name(),
        labels.period_from,
        labels.period_to,
    );
    the_value_holds_the_digest(d);
    lemma_period_told(s, from, to, labels.period_from, labels.period_to);
    digest_laws::the_text_tells_all(d, labels.shown_from, labels.shown_to);
    assert(holds_digest(row.body, d));
    assert(row.text == digest::digest_text(d, labels.shown_from, labels.shown_to));
}

// --- sections ------------------------------------------------------------

/// Events of a period for which a property holds, with the name of their
/// project.
pub open spec fn seen_with(
    s: StoreModel,
    from: int,
    to: int,
    q: spec_fn(EventModel) -> bool,
) -> spec_fn(StoredModel) -> bool {
    |e: StoredModel| from < e.seen_at && e.seen_at <= to && q(s.joined(e))
}

spec fn mark(q: spec_fn(EventModel) -> bool) -> spec_fn(EventModel) -> nat {
    |e: EventModel|
        if q(e) {
            1
        } else {
            0
        }
}

pub proof fn lemma_marks<A>(list: Seq<A>, q: spec_fn(A) -> bool, f: spec_fn(A) -> nat)
    requires
        forall|a: A| #[trigger]
            f(a) == (if q(a) {
                1nat
            } else {
                0
            }),
    ensures
        order::sum(list, f) == list.filter(q).len(),
    decreases list.len(),
{
    reveal(Seq::filter);
    if list.len() > 0 {
        lemma_marks(list.drop_last(), q, f);
    }
}

proof fn lemma_marks_of_some(
    s: StoreModel,
    events: Seq<StoredModel>,
    from: int,
    to: int,
    q: spec_fn(EventModel) -> bool,
    f: spec_fn(StoredModel) -> nat,
)
    requires
        forall|e: StoredModel| #[trigger] f(e) == (mark(q))(s.joined(e)),
    ensures
        order::sum(events.filter(store::seen_between(from, to)), f) == events.filter(
            seen_with(s, from, to, q),
        ).len(),
    decreases events.len(),
{
    reveal(Seq::filter);
    if events.len() > 0 {
        let rest = events.drop_last();
        let e = events.last();
        lemma_marks_of_some(s, rest, from, to, q, f);
        if from < e.seen_at <= to {
            order::lemma_sum_push(rest.filter(store::seen_between(from, to)), e, f);
        }
    }
}

/// As many events of a period have a property as there are such events in the
/// journal.
pub proof fn a_period_has_each_event_once(
    s: StoreModel,
    from: int,
    to: int,
    q: spec_fn(EventModel) -> bool,
)
    ensures
        s.events_between(from, to).filter(q).len() == s.events.filter(
            seen_with(s, from, to, q),
        ).len(),
{
    let kept = s.events.filter(store::seen_between(from, to));
    let joined = s.joined_all(kept);
    let join = |e: StoredModel| s.joined(e);
    let f = |e: StoredModel| (mark(q))(join(e));
    lemma_marks(s.events_between(from, to), q, mark(q));
    order::lemma_sum_sorted(joined, store::oldest_first(), mark(q));
    order::lemma_sum_map(kept, join, mark(q));
    lemma_marks_of_some(s, s.events, from, to, q, f);
}

/// Whether the sections stand in their order: more commits first, then by name.
pub open spec fn are_ordered(projects: Seq<ProjectDigestModel>) -> bool {
    forall|i: int, j: int|
        0 <= i < j < projects.len() ==> {
            let a = #[trigger] projects[i];
            let b = #[trigger] projects[j];
            a.commits.len() > b.commits.len() || (a.commits.len() == b.commits.len()
                && text::precedes(a.name, b.name))
        }
}

/// Whether a section sums up its commits.
pub open spec fn adds_up(p: ProjectDigestModel) -> bool {
    &&& p.insertions == order::sum(p.commits, |c: CommitBriefModel| c.insertions)
    &&& p.deletions == order::sum(p.commits, |c: CommitBriefModel| c.deletions)
    &&& p.authors.no_duplicates()
    &&& forall|author: Seq<char>| #[trigger]
        p.authors.contains(author) <==> exists|i: int|
            0 <= i < p.commits.len() && (#[trigger] p.commits[i]).author == author
}

/// Whether the commits of a section are those of the events, in their order.
pub open spec fn follows_events(
    commits: Seq<CommitBriefModel>,
    events: Seq<EventModel>,
    name: Seq<char>,
    from: Seq<int>,
) -> bool {
    &&& from.len() == commits.len()
    &&& forall|i: int|
        0 <= i < commits.len() ==> {
            &&& 0 <= #[trigger] from[i] < events.len()
            &&& events[from[i]].kind == "commit"@ && events[from[i]].project == name
            &&& commits[i] == said_of_commit(events[from[i]].payload)
        }
    &&& forall|i: int, j: int| 0 <= i < j < commits.len() ==> #[trigger] from[i] < #[trigger] from[j]
}

/// The sections of a digest stand in order, each adds up its commits, lists
/// them in the order of the events, and counts all of them.
pub proof fn sections_add_up(
    events: Seq<EventModel>,
    projects: Seq<ProjectModel>,
    period_from: Seq<char>,
    period_to: Seq<char>,
)
    ensures
        ({
            let d = digest::digest_of(events, projects, period_from, period_to);
            &&& are_ordered(d.projects)
            &&& forall|k: int|
                0 <= k < d.projects.len() ==> {
                    let p = #[trigger] d.projects[k];
                    &&& adds_up(p)
                    &&& p.commits.len() == events.filter(
                        |e: EventModel| e.kind == "commit"@ && e.project == p.name,
                    ).len()
                    &&& exists|at: Seq<int>| #[trigger]
                        follows_events(p.commits, events, p.name, at)
                }
        }),
{
    let d = digest::digest_of(events, projects, period_from, period_to);
    digest::every_busy_project_has_one_section(events, projects);
    let names = digest::busy_names(events);
    let sections = names.map_values(digest::project_digest_for(events, projects));
    order::sorted_is_permutation(sections, digest::busiest_first());
    assert forall|i: int, j: int| 0 <= i < sections.len() && 0 <= j < sections.len() && i
        != j implies #[trigger] sections[i].name != #[trigger] sections[j].name by {
        assert(sections[i].name == names[i] && sections[j].name == names[j]);
    }
    assert(sections.no_duplicates());
    sections.lemma_multiset_has_no_duplicates();
    d.projects.lemma_multiset_has_no_duplicates_conv();
    assert forall|k: int| 0 <= k < d.projects.len() implies exists|m: int|
        0 <= m < names.len() && #[trigger] d.projects[k] == digest::project_digest(
            events,
            projects,
            #[trigger] names[m],
        ) by {
        assert(d.projects.contains(d.projects[k]));
        assert(sections.contains(d.projects[k]));
        let m = choose|m: int| 0 <= m < sections.len() && sections[m] == d.projects[k];
        assert(sections[m] == digest::project_digest(events, projects, names[m]));
    }
    assert forall|i: int, j: int| 0 <= i < j < d.projects.len() implies ({
        let a = #[trigger] d.projects[i];
        let b = #[trigger] d.projects[j];
        a.commits.len() > b.commits.len() || (a.commits.len() == b.commits.len()
            && text::precedes(a.name, b.name))
    }) by {
        let a = d.projects[i];
        let b = d.projects[j];
        assert(!(digest::busiest_first())(b, a));
        assert(a != b);
        let x = choose|m: int|
            0 <= m < names.len() && a == digest::project_digest(events, projects, #[trigger] names[m]);
        let y = choose|m: int|
            0 <= m < names.len() && b == digest::project_digest(events, projects, #[trigger] names[m]);
        assert(a.name == names[x] && b.name == names[y]);
        text::lemma_precedes_total(a.name, b.name);
    }
    assert forall|k: int| 0 <= k < d.projects.len() implies ({
        let p = #[trigger] d.projects[k];
        &&& adds_up(p)
        &&& p.commits.len() == events.filter(
            |e: EventModel| e.kind == "commit"@ && e.project == p.name,
        ).len()
        &&& exists|at: Seq<int>| #[trigger] follows_events(p.commits, events, p.name, at)
    }) by {
        let p = d.projects[k];
        let m = choose|m: int|
            0 <= m < names.len() && p == digest::project_digest(events, projects, #[trigger] names[m]);
        lemma_section_adds_up(events, projects, names[m]);
    }
}

proof fn lemma_section_adds_up(
    events: Seq<EventModel>,
    projects: Seq<ProjectModel>,
    name: Seq<char>,
)
    ensures
        ({
            let p = digest::project_digest(events, projects, name);
            &&& adds_up(p)
            &&& p.name == name
            &&& p.commits.len() == events.filter(
                |e: EventModel| e.kind == "commit"@ && e.project == p.name,
            ).len()
            &&& exists|at: Seq<int>| #[trigger] follows_events(p.commits, events, p.name, at)
        }),
{
    let p = digest::project_digest(events, projects, name);
    let q = digest::in_project(name, "commit"@);
    let found = events.filter(q);
    assert(q =~= (|e: EventModel| e.kind == "commit"@ && e.project == p.name));
    order::lemma_kept_from(events, q);
    let at = order::kept_from(events, q);
    assert forall|i: int| 0 <= i < p.commits.len() implies ({
        &&& 0 <= #[trigger] at[i] < events.len()
        &&& events[at[i]].kind == "commit"@ && events[at[i]].project == name
        &&& p.commits[i] == said_of_commit(events[at[i]].payload)
    }) by {
        assert(found[i] == events[at[i]]);
        assert(q(found[i]));
        assert(p.commits[i] == (digest::brief_of())(found[i]));
    }
    assert(follows_events(p.commits, events, p.name, at));
    order::lemma_sum_same(
        p.commits,
        digest::insertions_of(),
        |c: CommitBriefModel| c.insertions,
    );
    order::lemma_sum_same(p.commits, digest::deletions_of(), |c: CommitBriefModel| c.deletions);
    let authors = p.commits.map_values(digest::author_of());
    order::lemma_distinct(authors);
    assert forall|author: Seq<char>| #[trigger]
        p.authors.contains(author) <==> exists|i: int|
            0 <= i < p.commits.len() && (#[trigger] p.commits[i]).author == author by {
        if p.authors.contains(author) {
            assert(authors.contains(author));
            let i = choose|i: int| 0 <= i < authors.len() && authors[i] == author;
            assert(p.commits[i].author == author);
        }
        if exists|i: int| 0 <= i < p.commits.len() && (#[trigger] p.commits[i]).author == author {
            let i = choose|i: int|
                0 <= i < p.commits.len() && (#[trigger] p.commits[i]).author == author;
            assert(authors[i] == author);
            assert(authors.contains(author));
        }
    }
}

/// Whether a project is the one of its name, of those that are still there,
/// that was registered last.
pub open spec fn is_last_of_name(projects: Seq<ProjectModel>, m: int) -> bool {
    &&& 0 <= m < projects.len() && projects[m].removed_at is None
    &&& forall|i: int|
        m < i < projects.len() && (#[trigger] projects[i]).removed_at is None ==> projects[i].name
            != projects[m].name
}

/// Projects of a name that are still there.
pub open spec fn is_there_as(name: Seq<char>) -> spec_fn(ProjectModel) -> bool {
    |p: ProjectModel| p.removed_at is None && p.name == name
}

proof fn lemma_project_named(projects: Seq<ProjectModel>, name: Seq<char>)
    ensures
        ({
            let kept = projects.filter(is_there_as(name));
            digest::project_named(projects, name) == (if kept.len() > 0 {
                Some(kept.last())
            } else {
                None
            })
        }),
    decreases projects.len(),
{
    reveal(Seq::filter);
    if projects.len() > 0 {
        lemma_project_named(projects.drop_last(), name);
    }
}

proof fn lemma_last_of_name(projects: Seq<ProjectModel>, m: int)
    requires
        is_last_of_name(projects, m),
    ensures
        projects.filter(is_there_as(projects[m].name)).len() > 0,
        projects.filter(is_there_as(projects[m].name)).last() == projects[m],
    decreases projects.len(),
{
    let name = projects[m].name;
    let rest = projects.drop_last();
    reveal(Seq::filter);
    if m < projects.len() - 1 {
        assert(rest[m] == projects[m]);
        assert forall|i: int|
            m < i < rest.len() && (#[trigger] rest[i]).removed_at is None implies rest[i].name
            != rest[m].name by {
            assert(rest[i] == projects[i]);
        }
        lemma_last_of_name(rest, m);
        assert(projects[projects.len() - 1] == projects.last());
    }
}

/// A section shows how the working tree of its project stands: its branch and
/// the number of its uncommitted files. Of several projects of one name it is
/// the one that was registered last.
pub proof fn a_section_shows_the_working_tree(
    s: StoreModel,
    events: Seq<EventModel>,
    period_from: Seq<char>,
    period_to: Seq<char>,
    k: int,
    m: int,
)
    requires
        is_last_of_name(s.projects, m),
        ({
            let d = digest::digest_of(events, s.by_name(), period_from, period_to);
            0 <= k < d.projects.len() && d.projects[k].name == s.projects[m].name
        }),
    ensures
        ({
            let p = digest::digest_of(events, s.by_name(), period_from, period_to).projects[k];
            p.branch == s.projects[m].head_branch && p.uncommitted_files
                == s.projects[m].dirty_files
        }),
{
    let rows = s.by_name();
    let name = s.projects[m].name;
    let q = is_there_as(name);
    every_section_is_of_its_project(events, rows, period_from, period_to, k);
    lemma_project_named(rows, name);
    lemma_last_of_name(s.projects, m);
    assert forall|a: ProjectModel, b: ProjectModel| q(a) && q(b) implies !#[trigger] (
    store::by_name())(a, b) by {
        text::lemma_precedes_total(a.name, b.name);
    }
    order::equal_elements_keep_their_order(s.projects, store::by_name(), q);
}

/// A section of a project that is gone shows no working tree.
pub proof fn a_section_of_a_lost_project_shows_none(
    s: StoreModel,
    events: Seq<EventModel>,
    period_from: Seq<char>,
    period_to: Seq<char>,
    k: int,
)
    requires
        ({
            let d = digest::digest_of(events, s.by_name(), period_from, period_to);
            0 <= k < d.projects.len() && forall|i: int|
                0 <= i < s.projects.len() && (#[trigger] s.projects[i]).removed_at is None
                    ==> s.projects[i].name != d.projects[k].name
        }),
    ensures
        ({
            let p = digest::digest_of(events, s.by_name(), period_from, period_to).projects[k];
            p.branch is None && p.uncommitted_files == 0
        }),
{
    let rows = s.by_name();
    let name = digest::digest_of(events, rows, period_from, period_to).projects[k].name;
    every_section_is_of_its_project(events, rows, period_from, period_to, k);
    lemma_project_named(rows, name);
    order::sorted_is_permutation(s.projects, store::by_name());
    assert forall|i: int| 0 <= i < rows.len() implies !is_there_as(name)(#[trigger] rows[i]) by {
        assert(rows.contains(rows[i]));
        assert(s.projects.contains(rows[i]));
        let j = choose|j: int| 0 <= j < s.projects.len() && s.projects[j] == rows[i];
        assert(s.projects[j] == rows[i]);
    }
    order::lemma_filter_empty(rows, is_there_as(name));
}

/// A digest reminds of the uncommitted work of exactly those projects that are
/// there and that no event of it is about.
pub proof fn a_digest_reminds_of_uncommitted_work(
    s: StoreModel,
    events: Seq<EventModel>,
    period_from: Seq<char>,
    period_to: Seq<char>,
    u: UncommittedModel,
)
    ensures
        digest::digest_of(
            events,
            s.by_name(),
            period_from,
            period_to,
        ).uncommitted_elsewhere.contains(u) <==> exists|m: int|
            {
                &&& 0 <= m < s.projects.len()
                &&& (#[trigger] s.projects[m]).removed_at is None
                &&& s.projects[m].name == u.name && s.projects[m].dirty_files == u.files
                &&& u.files > 0
                &&& forall|i: int| 0 <= i < events.len() ==> (#[trigger] events[i]).project != u.name
            },
{
    let rows = s.by_name();
    let left = digest::is_left_over(digest::mentioned(events));
    let kept = rows.filter(left);
    let told = kept.map_values(digest::uncommitted_of());
    order::sorted_is_permutation(s.projects, store::by_name());
    order::lemma_filter_contains(rows, left);
    let names = digest::mentioned(events);
    if told.contains(u) {
        let k = choose|k: int| 0 <= k < told.len() && told[k] == u;
        let p = kept[k];
        assert(kept.contains(p));
        assert(s.projects.contains(p));
        let m = choose|m: int| 0 <= m < s.projects.len() && s.projects[m] == p;
        assert forall|i: int| 0 <= i < events.len() implies (#[trigger] events[i]).project
            != u.name by {
            assert(names[i] == events[i].project);
        }
        assert(s.projects[m].removed_at is None);
    }
    if exists|m: int|
        {
            &&& 0 <= m < s.projects.len()
            &&& (#[trigger] s.projects[m]).removed_at is None
            &&& s.projects[m].name == u.name && s.projects[m].dirty_files == u.files
            &&& u.files > 0
            &&& forall|i: int| 0 <= i < events.len() ==> (#[trigger] events[i]).project != u.name
        } {
        let m = choose|m: int|
            {
                &&& 0 <= m < s.projects.len()
                &&& (#[trigger] s.projects[m]).removed_at is None
                &&& s.projects[m].name == u.name && s.projects[m].dirty_files == u.files
                &&& u.files > 0
                &&& forall|i: int| 0 <= i < events.len() ==> (#[trigger] events[i]).project != u.name
            };
        let p = s.projects[m];
        assert(s.projects.contains(p));
        assert(rows.contains(p));
        assert(!names.contains(p.name)) by {
            if names.contains(p.name) {
                let i = choose|i: int| 0 <= i < names.len() && names[i] == p.name;
                assert(events[i].project == u.name);
            }
        }
        assert(left(p));
        assert(kept.contains(p));
        let k = choose|k: int| 0 <= k < kept.len() && kept[k] == p;
        assert(told[k] == u);
    }
}

// --- lists ---------------------------------------------------------------

/// Whether a list says one thing of each event that has a property, in the
/// order of the events, and nothing else.
pub open spec fn follows<B>(
    list: Seq<B>,
    events: Seq<EventModel>,
    p: spec_fn(EventModel) -> bool,
    f: spec_fn(EventModel) -> B,
    at: Seq<int>,
) -> bool {
    &&& at.len() == list.len() && list.len() == events.filter(p).len()
    &&& forall|i: int|
        0 <= i < list.len() ==> {
            &&& 0 <= #[trigger] at[i] < events.len()
            &&& p(events[at[i]])
            &&& list[i] == f(events[at[i]])
        }
    &&& forall|i: int, j: int| 0 <= i < j < list.len() ==> #[trigger] at[i] < #[trigger] at[j]
}

/// Whether a list says one thing of each event that has a property, in their
/// order.
pub open spec fn is_list_of<B>(
    list: Seq<B>,
    events: Seq<EventModel>,
    p: spec_fn(EventModel) -> bool,
    f: spec_fn(EventModel) -> B,
) -> bool {
    exists|at: Seq<int>| #[trigger] follows(list, events, p, f, at)
}

/// Events of a kind in a project.
pub open spec fn happened(name: Seq<char>, kind: Seq<char>) -> spec_fn(EventModel) -> bool {
    |e: EventModel| e.kind == kind && e.project == name
}

/// What the payload of an event says under a key.
pub open spec fn named_in(key: Seq<char>) -> spec_fn(EventModel) -> Seq<char> {
    |e: EventModel|
        match json::json_field(e.payload, key) {
            Some(Json::Text(text)) => text,
            _ => seq![],
        }
}

proof fn lemma_follows<B>(
    events: Seq<EventModel>,
    q: spec_fn(EventModel) -> bool,
    g: spec_fn(EventModel) -> B,
    p: spec_fn(EventModel) -> bool,
    f: spec_fn(EventModel) -> B,
)
    requires
        forall|e: EventModel| #[trigger] p(e) == q(e),
        forall|e: EventModel| #[trigger] f(e) == g(e),
    ensures
        is_list_of(events.filter(q).map_values(g), events, p, f),
{
    assert(p =~= q);
    order::lemma_kept_from(events, q);
    let kept = events.filter(q);
    let at = order::kept_from(events, q);
    let list = kept.map_values(g);
    assert forall|i: int| 0 <= i < list.len() implies ({
        &&& 0 <= #[trigger] at[i] < events.len()
        &&& p(events[at[i]])
        &&& list[i] == f(events[at[i]])
    }) by {
        assert(kept[i] == events[at[i]]);
        assert(p(kept[i]) == q(kept[i]) && f(kept[i]) == g(kept[i]));
    }
    assert(follows(list, events, p, f, at));
}

/// The lists of a section, and those of the digest, hold one entry for each
/// event, in the order of the events: the branches that were created and
/// deleted, those that were switched to, and the projects that came and went.
pub proof fn lists_follow_the_events(
    events: Seq<EventModel>,
    projects: Seq<ProjectModel>,
    name: Seq<char>,
    period_from: Seq<char>,
    period_to: Seq<char>,
)
    ensures
        ({
            let p = digest::project_digest(events, projects, name);
            let d = digest::digest_of(events, projects, period_from, period_to);
            &&& is_list_of(
                p.branches_created,
                events,
                happened(name, "branch_created"@),
                named_in("branch"@),
            )
            &&& is_list_of(
                p.branches_deleted,
                events,
                happened(name, "branch_deleted"@),
                named_in("branch"@),
            )
            &&& is_list_of(p.checkouts, events, happened(name, "checkout"@), named_in("to"@))
            &&& is_list_of(
                d.added_projects,
                events,
                |e: EventModel| e.kind == "project_added"@,
                |e: EventModel| e.project,
            )
            &&& is_list_of(
                d.removed_projects,
                events,
                |e: EventModel| e.kind == "project_removed"@,
                |e: EventModel| e.project,
            )
        }),
{
    lemma_follows(
        events,
        digest::in_project(name, "branch_created"@),
        digest::field_of("branch"@),
        happened(name, "branch_created"@),
        named_in("branch"@),
    );
    lemma_follows(
        events,
        digest::in_project(name, "branch_deleted"@),
        digest::field_of("branch"@),
        happened(name, "branch_deleted"@),
        named_in("branch"@),
    );
    lemma_follows(
        events,
        digest::in_project(name, "checkout"@),
        digest::field_of("to"@),
        happened(name, "checkout"@),
        named_in("to"@),
    );
    lemma_follows(
        events,
        digest::of_kind("project_added"@),
        digest::project_of(),
        |e: EventModel| e.kind == "project_added"@,
        |e: EventModel| e.project,
    );
    lemma_follows(
        events,
        digest::of_kind("project_removed"@),
        digest::project_of(),
        |e: EventModel| e.kind == "project_removed"@,
        |e: EventModel| e.project,
    );
}

/// Every section of a digest is that of a project in which something happened.
pub proof fn every_section_is_of_its_project(
    events: Seq<EventModel>,
    projects: Seq<ProjectModel>,
    period_from: Seq<char>,
    period_to: Seq<char>,
    k: int,
)
    requires
        0 <= k < digest::digest_of(events, projects, period_from, period_to).projects.len(),
    ensures
        ({
            let p = digest::digest_of(events, projects, period_from, period_to).projects[k];
            &&& p == digest::project_digest(events, projects, p.name)
            &&& exists|i: int|
                0 <= i < events.len() && (#[trigger] events[i]).project == p.name && events[i].kind
                    != "project_added"@ && events[i].kind != "project_removed"@
        }),
{
    let d = digest::digest_of(events, projects, period_from, period_to);
    let names = digest::busy_names(events);
    let sections = names.map_values(digest::project_digest_for(events, projects));
    order::sorted_is_permutation(sections, digest::busiest_first());
    assert(d.projects.contains(d.projects[k]));
    assert(sections.contains(d.projects[k]));
    let m = choose|m: int| 0 <= m < sections.len() && sections[m] == d.projects[k];
    assert(sections[m] == digest::project_digest(events, projects, names[m]));
    let work = events.filter(digest::is_work());
    let all = work.map_values(digest::project_of());
    order::lemma_distinct(all);
    assert(names.contains(names[m]));
    let x = choose|x: int| 0 <= x < all.len() && all[x] == names[m];
    order::lemma_filter_contains(events, digest::is_work());
    assert(work.contains(work[x]));
    let i = choose|i: int| 0 <= i < events.len() && events[i] == work[x];
    assert((digest::is_work())(events[i]));
    assert(events[i].project == names[m]);
}

/// Uncommitted work is reminded of in the order of the projects' names.
pub proof fn reminders_stand_by_name(
    s: StoreModel,
    events: Seq<EventModel>,
    period_from: Seq<char>,
    period_to: Seq<char>,
)
    ensures
        ({
            let list = digest::digest_of(
                events,
                s.by_name(),
                period_from,
                period_to,
            ).uncommitted_elsewhere;
            forall|i: int, j: int|
                0 <= i < j < list.len() ==> !text::precedes(
                    (#[trigger] list[j]).name,
                    (#[trigger] list[i]).name,
                )
        }),
{
    let rows = s.by_name();
    let left = digest::is_left_over(digest::mentioned(events));
    let kept = rows.filter(left);
    let at = order::kept_from(rows, left);
    order::lemma_kept_from(rows, left);
    journal_laws::projects_stand_by_name(s);
    let list = digest::digest_of(events, rows, period_from, period_to).uncommitted_elsewhere;
    assert forall|i: int, j: int| 0 <= i < j < list.len() implies !text::precedes(
        (#[trigger] list[j]).name,
        (#[trigger] list[i]).name,
    ) by {
        assert(list[i].name == kept[i].name && list[j].name == kept[j].name);
        assert(kept[i] == rows[at[i]] && kept[j] == rows[at[j]]);
        assert(at[i] < at[j]);
        assert(!text::precedes(rows[at[j]].name, rows[at[i]].name));
    }
}

/// The sums over a period can be held if the totals of its digest can.
pub proof fn sums_fit_if_the_totals_do(
    events: Seq<EventModel>,
    projects: Seq<ProjectModel>,
    period_from: Seq<char>,
    period_to: Seq<char>,
)
    ensures
        ({
            let totals = digest::digest_of(events, projects, period_from, period_to).totals;
            digest::sums_fit(events) <==> totals.insertions <= u64::MAX && totals.deletions
                <= u64::MAX
        }),
{
    digest::totals_count_every_commit(events, projects);
}

/// The authors of a section stand in the order of their first commits.
pub proof fn authors_stand_as_they_commit(
    events: Seq<EventModel>,
    projects: Seq<ProjectModel>,
    name: Seq<char>,
    i: int,
    j: int,
)
    requires
        0 <= i < j < digest::project_digest(events, projects, name).authors.len(),
    ensures
        ({
            let p = digest::project_digest(events, projects, name);
            exists|k: int|
                0 <= k < p.commits.len() && (#[trigger] p.commits[k]).author == p.authors[i]
                    && forall|m: int|
                    0 <= m <= k ==> (#[trigger] p.commits[m]).author != p.authors[j]
        }),
{
    let p = digest::project_digest(events, projects, name);
    let all = p.commits.map_values(digest::author_of());
    order::distinct_stands_as_it_occurs(all, i, j);
    let k = choose|k: int|
        0 <= k < all.len() && #[trigger] all[k] == p.authors[i] && forall|m: int|
            0 <= m <= k ==> #[trigger] all[m] != p.authors[j];
    assert(p.commits[k].author == p.authors[i]);
    assert forall|m: int| 0 <= m <= k implies (#[trigger] p.commits[m]).author != p.authors[j] by {
        assert(all[m] == p.commits[m].author);
    }
}

} // verus!
