//! The tools over the journal.
//!
//! Replies are JSON text: a client can take them apart, and a model can read
//! them. Moments are shown on the local clock.

use crate::digest;
use crate::digest::Digester;
use crate::json;
use crate::json::Json;
use crate::order;
use crate::server_laws;
use crate::store::{
    DigestRow, DigestRowModel, EventModel, EventRow, ProjectModel, ProjectRow, Store, StoreError,
    StoreModel,
};
use crate::text;
use crate::time;
use serde_json::Value;
use vstd::prelude::*;

verus! {

/// A reply, or what went wrong.
pub type ToolResult = Result<String, String>;

/// Digests in a reply where no number is given, and at most.
pub const DEFAULT_DIGEST_LIMIT: u32 = 5;

pub const MAX_DIGEST_LIMIT: u32 = 50;

/// Events in a reply where no number is given, and at most.
pub const DEFAULT_CHANGES_LIMIT: u32 = 50;

pub const MAX_CHANGES_LIMIT: u32 = 500;

pub fn default_true() -> (r: bool)
    ensures
        r,
{
    true
}

pub fn default_digest_limit() -> (r: u32)
    ensures
        r == DEFAULT_DIGEST_LIMIT,
{
    DEFAULT_DIGEST_LIMIT
}

pub fn default_changes_limit() -> (r: u32)
    ensures
        r == DEFAULT_CHANGES_LIMIT,
{
    DEFAULT_CHANGES_LIMIT
}

/// What to say of a store that failed.
pub open spec fn internal_text(err: Seq<char>) -> Seq<char> {
    "ошибка хранилища: "@ + err
}

/// What to say of a store that failed.
pub fn internal(err: &str) -> (r: String)
    ensures
        r@ == internal_text(err@),
{
    text::concat2("ошибка хранилища: ", err)
}

/// The nearest number between one and `most`.
pub open spec fn clamped(limit: u32, most: u32) -> int {
    if limit < 1 {
        1
    } else if limit > most {
        most as int
    } else {
        limit as int
    }
}

fn clamp(limit: u32, most: u32) -> (r: i64)
    ensures
        r == clamped(limit, most),
{
    if limit < 1 {
        1
    } else if limit > most {
        most as i64
    } else {
        limit as i64
    }
}

/// Whether there is one item for each row, which shows it.
pub open spec fn shows_all<M>(items: Seq<Json>, rows: Seq<M>, shows: spec_fn(Json, M) -> bool) -> bool {
    &&& items.len() == rows.len()
    &&& forall|i: int| 0 <= i < rows.len() ==> shows(#[trigger] items[i], rows[i])
}

// --- digests -------------------------------------------------------------

/// A digest in a reply, with the texts of its moments.
pub open spec fn digest_object(
    d: DigestRowModel,
    period_from: Seq<char>,
    period_to: Seq<char>,
    created_at: Seq<char>,
) -> Json {
    Json::Object(
        map![
            "id"@ => Json::Number(text::decimal_signed(d.id)),
            "period_from"@ => Json::Text(period_from),
            "period_to"@ => Json::Text(period_to),
            "created_at"@ => Json::Text(created_at),
            "acked"@ => Json::Bool(d.acked_at is Some),
            "text"@ => Json::Text(d.text),
        ],
    )
}

/// Whether a value shows a digest, its moments on local clocks.
pub open spec fn shows_digest() -> spec_fn(Json, DigestRowModel) -> bool {
    |j: Json, d: DigestRowModel|
        exists|from: Seq<char>, to: Seq<char>, created: Seq<char>|
            j == #[trigger] digest_object(d, from, to, created) && time::is_rfc3339(
                from,
                d.period_from as i64,
            ) && time::is_rfc3339(to, d.period_to as i64) && time::is_rfc3339(
                created,
                d.created_at as i64,
            )
}

/// Whether the calendar has the moments of a digest on every clock.
pub open spec fn digest_is_clear() -> spec_fn(DigestRowModel) -> bool {
    |d: DigestRowModel|
        time::clear_of_edges(d.period_from as i64) && time::clear_of_edges(d.period_to as i64)
            && time::clear_of_edges(d.created_at as i64)
}

/// Whether the calendar has the moments of all digests on every clock.
pub open spec fn digests_are_clear(digests: Seq<DigestRowModel>) -> bool {
    forall|i: int| 0 <= i < digests.len() ==> (digest_is_clear())(#[trigger] digests[i])
}

/// A digest in a reply.
pub fn digest_json(row: &DigestRow) -> (r: Value)
    requires
        (digest_is_clear())(row@),
    ensures
        (shows_digest())(json::json_view(r), row@),
        server_laws::tells_digest(json::json_view(r), row@),
{
    let period_from = time::rfc3339(row.period_from);
    let period_to = time::rfc3339(row.period_to);
    let created_at = time::rfc3339(row.created_at);
    let mut r = json::object_value();
    json::set_field(&mut r, "id", json::number_value(row.id));
    json::set_field(&mut r, "period_from", json::text_value(period_from.as_str()));
    json::set_field(&mut r, "period_to", json::text_value(period_to.as_str()));
    json::set_field(&mut r, "created_at", json::text_value(created_at.as_str()));
    json::set_field(&mut r, "acked", json::flag_value(row.acked_at.is_some()));
    json::set_field(&mut r, "text", json::text_value(row.text.as_str()));
    assert(json::json_view(r) == digest_object(row@, period_from@, period_to@, created_at@));
    proof {
        server_laws::a_shown_digest_is_told(json::json_view(r), row@);
    }
    r
}

/// A reply with a list of items under a name.
pub open spec fn list_reply(name: Seq<char>, items: Seq<Json>) -> Seq<char> {
    json::reply_text(Json::Object(map![name => Json::List(items)]))
}

/// A reply with a list of items under a name.
fn reply_list(name: &str, items: Vec<Value>) -> (r: String)
    ensures
        r@ == list_reply(name@, json::json_views(items@)),
{
    let mut reply = json::object_value();
    json::set_field(&mut reply, name, json::list_value(items));
    json::pretty(&reply)
}

/// The digests that a call asks for.
pub open spec fn asked_digests(s: StoreModel, unread_only: bool, limit: u32) -> Seq<DigestRowModel> {
    s.digest_list(unread_only, clamped(limit, MAX_DIGEST_LIMIT))
}

/// The digests that a call asks for.
pub fn digests_for(store: &Store, unread_only: bool, limit: u32) -> (r: Vec<DigestRow>)
    ensures
        order::views(r@) == asked_digests(store@, unread_only, limit),
{
    store.digests(unread_only, clamp(limit, MAX_DIGEST_LIMIT))
}

/// Whether the calendar has the moments of all digests on every clock.
pub fn can_show_digests(rows: &Vec<DigestRow>) -> (r: bool)
    ensures
        r == digests_are_clear(order::views(rows@)),
{
    let test = |d: &DigestRow| -> (r: bool)
        ensures r == (digest_is_clear())(d@)
    {
        time::is_clear(d.period_from) && time::is_clear(d.period_to) && time::is_clear(
            d.created_at,
        )
    };
    assert(order::views(rows@).len() == rows@.len());
    order::every(rows, test, Ghost(digest_is_clear()))
}

/// The digests of the watched projects, newest first.
pub fn activity_digest(store: &Store, unread_only: bool, limit: u32) -> (r: ToolResult)
    requires
        digests_are_clear(asked_digests(store@, unread_only, limit)),
    ensures
        r is Ok,
        exists|items: Seq<Json>| #[trigger]
            shows_all(items, asked_digests(store@, unread_only, limit), shows_digest())
                && r->Ok_0@ == list_reply("digests"@, items),
{
    let rows = digests_for(store, unread_only, limit);
    let ghost list = order::views(rows@);
    let mut items: Vec<Value> = Vec::new();
    let mut i: usize = 0;
    while i < rows.len()
        invariant
            i <= rows.len(),
            list == order::views(rows@),
            list.len() == rows@.len(),
            digests_are_clear(list),
            items@.len() == i,
            forall|j: int|
                0 <= j < i ==> (shows_digest())(#[trigger] json::json_views(items@)[j], list[j]),
        decreases rows.len() - i,
    {
        let ghost done = json::json_views(items@);
        assert((digest_is_clear())(list[i as int]));
        let item = digest_json(&rows[i]);
        items.push(item);
        assert(json::json_views(items@) =~= done.push(json::json_view(item)));
        i += 1;
    }
    assert(shows_all(json::json_views(items@), list, shows_digest()));
    Ok(reply_list("digests", items))
}

/// The reply to an acknowledgement.
pub open spec fn ack_reply(id: int, found: bool) -> Result<Seq<char>, Seq<char>> {
    if found {
        Ok("Digest "@ + text::decimal_signed(id) + " acknowledged"@)
    } else {
        Err("сводки "@ + text::decimal_signed(id) + " нет"@)
    }
}

/// What a reply holds.
pub open spec fn reply_view(r: ToolResult) -> Result<Seq<char>, Seq<char>> {
    match r {
        Ok(text) => Ok(text@),
        Err(text) => Err(text@),
    }
}

/// Marks a digest as read, so that it is no longer among the unread.
pub fn activity_ack(store: &mut Store, id: i64, now: i64) -> (r: ToolResult)
    requires
        old(store)@.wf(),
    ensures
        final(store)@.wf(),
        final(store)@ == old(store)@.ack_digest(id as int, now).0,
        reply_view(r) == ack_reply(id as int, old(store)@.ack_digest(id as int, now).1),
{
    let number = text::i64_text(id);
    if store.ack_digest(id, now) {
        Ok(text::concat3("Digest ", number.as_str(), " acknowledged"))
    } else {
        Err(text::concat3("сводки ", number.as_str(), " нет"))
    }
}

// --- projects ------------------------------------------------------------

/// A project in a reply, with its last activity.
pub open spec fn project_object(p: ProjectModel, last_activity: Json) -> Json {
    Json::Object(
        map![
            "name"@ => Json::Text(p.name),
            "path"@ => Json::Text(p.path),
            "branch"@ => json::opt_json(p.head_branch),
            "uncommitted_files"@ => Json::Number(text::decimal_signed(p.dirty_files)),
            "uncommitted_sample"@ => json::texts_json(p.dirty_sample),
            "last_activity"@ => last_activity,
            "removed"@ => Json::Bool(p.removed_at is Some),
        ],
    )
}

/// Whether a value shows a moment, if there is one.
pub open spec fn shows_moment(j: Json, moment: Option<i64>) -> bool {
    match moment {
        Some(t) => j matches Json::Text(text) && time::is_rfc3339(text, t),
        None => j == Json::Null,
    }
}

/// Whether a value shows a project, its last activity on a local clock.
pub open spec fn shows_project() -> spec_fn(Json, ProjectModel) -> bool {
    |j: Json, p: ProjectModel|
        exists|last_activity: Json|
            j == #[trigger] project_object(p, last_activity) && shows_moment(
                last_activity,
                p.last_activity,
            )
}

/// Whether the calendar has a project's last activity on every clock.
pub open spec fn project_is_clear() -> spec_fn(ProjectModel) -> bool {
    |p: ProjectModel| p.last_activity matches Some(t) ==> time::clear_of_edges(t)
}

/// Whether the calendar has the last activity of all projects on every clock.
pub open spec fn projects_are_clear(projects: Seq<ProjectModel>) -> bool {
    forall|i: int| 0 <= i < projects.len() ==> (project_is_clear())(#[trigger] projects[i])
}

/// Whether the calendar has the last activity of all projects on every clock.
pub fn can_show_projects(rows: &Vec<ProjectRow>) -> (r: bool)
    ensures
        r == projects_are_clear(order::views(rows@)),
{
    let test = |p: &ProjectRow| -> (r: bool)
        ensures r == (project_is_clear())(p@)
    {
        match p.last_activity {
            Some(t) => time::is_clear(t),
            None => true,
        }
    };
    assert(order::views(rows@).len() == rows@.len());
    order::every(rows, test, Ghost(project_is_clear()))
}

/// A moment, or null for none.
pub(crate) fn moment_value(moment: Option<i64>) -> (r: Value)
    requires
        moment matches Some(t) ==> time::clear_of_edges(t),
    ensures
        shows_moment(json::json_view(r), moment),
{
    match moment {
        Some(t) => {
            let shown = time::rfc3339(t);
            json::text_value(shown.as_str())
        },
        None => json::null_value(),
    }
}

/// A project in a reply.
pub fn project_json(row: &ProjectRow) -> (r: Value)
    requires
        (project_is_clear())(row@),
    ensures
        (shows_project())(json::json_view(r), row@),
        server_laws::tells_project(json::json_view(r), row@),
{
    let last_activity = moment_value(row.last_activity);
    let ghost shown = json::json_view(last_activity);
    let mut r = json::object_value();
    json::set_field(&mut r, "name", json::text_value(row.name.as_str()));
    json::set_field(&mut r, "path", json::text_value(row.path.as_str()));
    json::set_field(&mut r, "branch", json::opt_text_value(&row.head_branch));
    json::set_field(&mut r, "uncommitted_files", json::number_value(row.dirty_files));
    json::set_field(&mut r, "uncommitted_sample", json::texts_value(&row.dirty_sample));
    json::set_field(&mut r, "last_activity", last_activity);
    json::set_field(&mut r, "removed", json::flag_value(row.removed_at.is_some()));
    assert(json::json_view(r) == project_object(row@, shown));
    proof {
        server_laws::a_shown_project_is_told(json::json_view(r), row@);
    }
    r
}

/// The watched projects, with current branch, uncommitted files and last
/// activity.
pub fn activity_projects(store: &Store) -> (r: ToolResult)
    requires
        projects_are_clear(store@.by_name()),
    ensures
        r is Ok,
        exists|items: Seq<Json>| #[trigger]
            shows_all(items, store@.by_name(), shows_project()) && r->Ok_0@ == list_reply(
                "projects"@,
                items,
            ),
{
    let rows = store.projects();
    let ghost list = order::views(rows@);
    let mut items: Vec<Value> = Vec::new();
    let mut i: usize = 0;
    while i < rows.len()
        invariant
            i <= rows.len(),
            list == order::views(rows@),
            list.len() == rows@.len(),
            projects_are_clear(list),
            items@.len() == i,
            forall|j: int|
                0 <= j < i ==> (shows_project())(#[trigger] json::json_views(items@)[j], list[j]),
        decreases rows.len() - i,
    {
        let ghost done = json::json_views(items@);
        assert((project_is_clear())(list[i as int]));
        let item = project_json(&rows[i]);
        items.push(item);
        assert(json::json_views(items@) =~= done.push(json::json_view(item)));
        i += 1;
    }
    assert(shows_all(json::json_views(items@), list, shows_project()));
    Ok(reply_list("projects", items))
}

// --- changes -------------------------------------------------------------

/// The fields of a payload; none where it is no object.
pub open spec fn payload_fields(payload: Json) -> Map<Seq<char>, Json> {
    match payload {
        Json::Object(fields) => fields,
        _ => Map::empty(),
    }
}

/// An event in a reply, with the text of its moment: the fields of its
/// payload, behind which project, kind and moment never hide.
pub open spec fn change_object(e: EventModel, seen_at: Seq<char>) -> Json {
    Json::Object(
        payload_fields(e.payload).insert("project"@, Json::Text(e.project)).insert(
            "kind"@,
            Json::Text(e.kind),
        ).insert("seen_at"@, Json::Text(seen_at)),
    )
}

/// Whether the calendar has the moments of all events on every clock.
pub open spec fn events_are_clear(events: Seq<EventModel>) -> bool {
    forall|i: int|
        0 <= i < events.len() ==> time::clear_of_edges((#[trigger] events[i]).seen_at as i64)
}

/// An event in a reply, with the text of its moment.
pub fn change_json(row: &EventRow, seen_at: &str) -> (r: Value)
    ensures
        json::json_view(r) == change_object(row@, seen_at@),
{
    let mut r = if row.payload.is_object() {
        row.payload.clone()
    } else {
        json::object_value()
    };
    assert(json::json_view(r) == Json::Object(payload_fields(row@.payload)));
    json::set_field(&mut r, "project", json::text_value(row.project.as_str()));
    json::set_field(&mut r, "kind", json::text_value(row.kind.as_str()));
    json::set_field(&mut r, "seen_at", json::text_value(seen_at));
    r
}

/// The name or path that a call asks for; none where it is blank.
pub open spec fn asked_project(project: Option<Seq<char>>) -> Option<Seq<char>> {
    match project {
        Some(name) if text::trimmed(name).len() > 0 => Some(text::trimmed(name)),
        _ => None,
    }
}

/// What to say of a project that is not there.
pub open spec fn no_project(name: Seq<char>) -> Seq<char> {
    "проект «"@ + name + "» не найден: список — activity_projects"@
}

/// The project of which a call asks for events: none for all, or what to say
/// where there is no such project.
pub open spec fn events_of(s: StoreModel, project: Option<Seq<char>>) -> Result<
    Option<i64>,
    Seq<char>,
> {
    match asked_project(project) {
        None => Ok(None),
        Some(name) => match s.find_project(name) {
            Some(p) => Ok(Some(p.id as i64)),
            None => Err(no_project(name)),
        },
    }
}

/// The project of which a call asks for events.
pub fn project_for(store: &Store, project: &Option<String>) -> (r: Result<Option<i64>, String>)
    ensures
        match events_of(store@, text::text_opt(*project)) {
            Ok(id) => r == Ok::<Option<i64>, String>(id),
            Err(e) => r matches Err(f) && f@ == e,
        },
{
    let name = match project {
        Some(name) => {
            let chars = text::chars_of(name.as_str());
            text::string_of(text::trim(chars.as_slice()))
        },
        None => {
            return Ok(None);
        },
    };
    if text::chars_of(name.as_str()).len() == 0 {
        return Ok(None);
    }
    match store.find_project(name.as_str()) {
        Some(p) => Ok(Some(p.id)),
        None => Err(
            text::concat3("проект «", name.as_str(), "» не найден: список — activity_projects"),
        ),
    }
}

/// The events that a call asks for.
pub open spec fn asked_events(s: StoreModel, project_id: Option<i64>, since: i64, limit: u32) -> Seq<
    EventModel,
> {
    s.recent_events(project_id, since as int, clamped(limit, MAX_CHANGES_LIMIT))
}

/// Whether the texts show the moments of the events on a local clock, as far as
/// its calendar has them.
pub open spec fn are_stamps(stamps: Seq<Option<Seq<char>>>, events: Seq<EventModel>) -> bool {
    &&& stamps.len() == events.len()
    &&& forall|i: int|
        0 <= i < events.len() ==> time::is_stamp(#[trigger] stamps[i], events[i].seen_at as i64)
}

/// Events in a reply, with the texts of their moments.
pub open spec fn change_objects(
    events: Seq<EventModel>,
    stamps: Seq<Option<Seq<char>>>,
) -> Seq<Json> {
    Seq::new(events.len(), |i: int| change_object(events[i], stamps[i]->Some_0))
}

/// The reply with events, with the text of their beginning and those of their
/// moments; none where one of the texts is missing.
pub open spec fn changes_reply(
    since: Option<Seq<char>>,
    events: Seq<EventModel>,
    stamps: Seq<Option<Seq<char>>>,
) -> Option<Seq<char>> {
    match since {
        Some(text) => if forall|i: int| 0 <= i < stamps.len() ==> #[trigger] stamps[i] is Some {
            Some(
                json::reply_text(
                    Json::Object(
                        map![
                            "since"@ => Json::Text(text),
                            "changes"@ => Json::List(change_objects(events, stamps)),
                        ],
                    ),
                ),
            )
        } else {
            None
        },
        None => None,
    }
}

/// Whether a text is the reply with the events from `since` on, or there is
/// none because a moment to show has no date on the local calendar.
pub open spec fn replies_with_changes(
    reply: Option<Seq<char>>,
    s: StoreModel,
    project_id: Option<i64>,
    since: i64,
    limit: u32,
) -> bool {
    let events = asked_events(s, project_id, since, limit);
    exists|shown: Option<Seq<char>>, stamps: Seq<Option<Seq<char>>>|
        time::is_stamp(shown, since) && are_stamps(stamps, events) && reply
            == #[trigger] changes_reply(shown, events, stamps)
}

/// The events from a moment on, newest first, of one project or of all. There
/// is no reply where the local calendar lacks one of the moments to show.
pub fn changes_since(store: &Store, project_id: Option<i64>, since: i64, limit: u32) -> (r: Option<
    String,
>)
    ensures
        replies_with_changes(text::text_opt(r), store@, project_id, since, limit),
        time::clear_of_edges(since) && events_are_clear(
            asked_events(store@, project_id, since, limit),
        ) ==> r is Some,
{
    let rows = store.recent_events(project_id, since, clamp(limit, MAX_CHANGES_LIMIT));
    let ghost list = order::views(rows@);
    let shown = time::try_rfc3339(since);
    let ghost beginning = text::text_opt(shown);
    let mut items: Vec<Value> = Vec::new();
    let ghost mut stamps: Seq<Option<Seq<char>>> = Seq::empty();
    let mut i: usize = 0;
    while i < rows.len()
        invariant
            i <= rows.len(),
            list == order::views(rows@),
            list == asked_events(store@, project_id, since, limit),
            list.len() == rows@.len(),
            time::is_stamp(beginning, since),
            items@.len() == i,
            stamps.len() == i,
            forall|j: int|
                0 <= j < i ==> time::is_stamp(#[trigger] stamps[j], list[j].seen_at as i64)
                    && stamps[j] is Some,
            forall|j: int|
                0 <= j < i ==> #[trigger] json::json_views(items@)[j] == change_object(
                    list[j],
                    stamps[j]->Some_0,
                ),
        decreases rows.len() - i,
    {
        let ghost done = json::json_views(items@);
        assert(list[i as int] == rows@[i as int]@);
        match time::try_rfc3339(rows[i].seen_at) {
            Some(seen_at) => {
                let item = change_json(&rows[i], seen_at.as_str());
                items.push(item);
                proof {
                    stamps = stamps.push(Some(seen_at@));
                }
                assert(json::json_views(items@) =~= done.push(json::json_view(item)));
            },
            None => {
                proof {
                    let known = stamps.push(None);
                    let all = Seq::new(
                        list.len(),
                        |j: int|
                            if j <= i {
                                known[j]
                            } else {
                                time::stamp_in(list[j].seen_at as i64, Seq::empty())
                            },
                    );
                    assert forall|j: int| 0 <= j < list.len() implies time::is_stamp(
                        #[trigger] all[j],
                        list[j].seen_at as i64,
                    ) by {}
                    assert(all[i as int] is None);
                    assert(changes_reply(beginning, list, all) is None);
                }
                return None;
            },
        }
        i += 1;
    }
    assert(are_stamps(stamps, list));
    let since_text = match shown {
        Some(text) => text,
        None => {
            assert(changes_reply(beginning, list, stamps) is None);
            return None;
        },
    };
    assert(json::json_views(items@) =~= change_objects(list, stamps));
    let mut reply = json::object_value();
    json::set_field(&mut reply, "since", json::text_value(since_text.as_str()));
    json::set_field(&mut reply, "changes", json::list_value(items));
    let r = json::pretty(&reply);
    assert(changes_reply(beginning, list, stamps) == Some(r@));
    Some(r)
}

/// The beginning that a call asks for: seven days back where it gives none.
pub open spec fn asked_since(since: Option<Seq<char>>) -> Seq<char> {
    match since {
        Some(s) => s,
        None => "7d"@,
    }
}

/// The recorded changes (commits, branches, checkouts, added or removed
/// projects), newest first. There is no reply where the local calendar lacks one
/// of the moments to show, or the beginning lies out of all bounds.
pub fn activity_changes(
    store: &Store,
    project: &Option<String>,
    since: &Option<String>,
    limit: u32,
    now: i64,
) -> (r: Option<ToolResult>)
    ensures
        !time::since_fits(asked_since(text::text_opt(*since)), now) ==> r is None,
        time::since_fits(asked_since(text::text_opt(*since)), now) ==> exists|
            start: Result<i64, Seq<char>>,
        | #[trigger]
            time::is_start(asked_since(text::text_opt(*since)), now, start) && match start {
                Err(e) => r matches Some(reply) && reply_view(reply) == Err::<
                    Seq<char>,
                    Seq<char>,
                >(e),
                Ok(moment) => match events_of(store@, text::text_opt(*project)) {
                    Err(e) => r matches Some(reply) && reply_view(reply) == Err::<
                        Seq<char>,
                        Seq<char>,
                    >(e),
                    Ok(id) => {
                        &&& match r {
                            Some(Ok(text)) => replies_with_changes(
                                Some(text@),
                                store@,
                                id,
                                moment,
                                limit,
                            ),
                            Some(Err(_)) => false,
                            None => replies_with_changes(None, store@, id, moment, limit),
                        }
                        &&& time::clear_of_edges(moment) && events_are_clear(
                            asked_events(store@, id, moment, limit),
                        ) ==> r is Some
                    },
                },
            },
{
    let beginning = match since {
        Some(s) => s.clone(),
        None => "7d".to_owned(),
    };
    if !time::can_parse_since(beginning.as_str(), now) {
        return None;
    }
    let parsed = time::parse_since(beginning.as_str(), now);
    let ghost start = time::moment_view(parsed);
    assert(time::is_start(asked_since(text::text_opt(*since)), now, start));
    let moment = match parsed {
        Ok(moment) => moment,
        Err(e) => {
            return Some(Err(e));
        },
    };
    let project_id = match project_for(store, project) {
        Ok(id) => id,
        Err(e) => {
            return Some(Err(e));
        },
    };
    match changes_since(store, project_id, moment, limit) {
        Some(text) => Some(Ok(text)),
        None => None,
    }
}

/// Neither project nor kind nor moment of an event can be hidden by its
/// payload, and every other field of the payload is shown.
pub proof fn a_payload_hides_nothing(e: EventModel, seen_at: Seq<char>, key: Seq<char>)
    ensures
        json::json_field(change_object(e, seen_at), "project"@) == Some(Json::Text(e.project)),
        json::json_field(change_object(e, seen_at), "kind"@) == Some(Json::Text(e.kind)),
        json::json_field(change_object(e, seen_at), "seen_at"@) == Some(Json::Text(seen_at)),
        key != "project"@ && key != "kind"@ && key != "seen_at"@ ==> json::json_field(
            change_object(e, seen_at),
            key,
        ) == json::json_field(Json::Object(payload_fields(e.payload)), key),
{
    reveal_strlit("project");
    reveal_strlit("kind");
    reveal_strlit("seen_at");
    assert("project"@.len() == 7 && "kind"@.len() == 4 && "seen_at"@.len() == 7);
    assert("project"@[0] == 'p' && "seen_at"@[0] == 's');
}

// --- building ------------------------------------------------------------

/// The reply where no digest was due.
pub open spec fn nothing_new() -> Json {
    Json::Object(
        map![
            "digest"@ => Json::Null,
            "note"@ => Json::Text("no changes since the previous digest"@),
        ],
    )
}

/// Whether a text is the reply to building a digest.
pub open spec fn replies_with_digest(reply: Seq<char>, row: Option<DigestRowModel>) -> bool {
    match row {
        Some(d) => exists|j: Json| #[trigger]
            (shows_digest())(j, d) && reply == json::reply_text(Json::Object(map!["digest"@ => j])),
        None => reply == json::reply_text(nothing_new()),
    }
}

/// The reply to building a digest.
pub fn build_reply(built: &Option<DigestRow>) -> (r: String)
    requires
        built matches Some(row) ==> (digest_is_clear())(row@),
    ensures
        replies_with_digest(
            r@,
            match *built {
                Some(row) => Some(row@),
                None => None,
            },
        ),
        server_laws::tells_built(
            r@,
            match *built {
                Some(row) => Some(row@),
                None => None,
            },
        ),
{
    let mut reply = json::object_value();
    match built {
        Some(row) => {
            let shown = digest_json(row);
            assert((shows_digest())(json::json_view(shown), row@));
            json::set_field(&mut reply, "digest", shown);
        },
        None => {
            json::set_field(&mut reply, "digest", json::null_value());
            json::set_field(
                &mut reply,
                "note",
                json::text_value("no changes since the previous digest"),
            );
        },
    }
    let r = json::pretty(&reply);
    proof {
        let row = match built {
            Some(row) => Some(row@),
            None => None,
        };
        assert(replies_with_digest(r@, row));
        server_laws::the_reply_tells_what_was_built(r@, row);
    }
    r
}

/// The text of a failure of the store.
pub open spec fn failure_text(e: StoreError) -> Seq<char> {
    match e {
        StoreError::UnknownProject => "проекта нет"@,
        StoreError::Full => "номера кончились"@,
    }
}

/// The text of a failure of the store.
pub fn store_failure(e: StoreError) -> (r: String)
    ensures
        r@ == failure_text(e),
{
    match e {
        StoreError::UnknownProject => "проекта нет".to_owned(),
        StoreError::Full => "номера кончились".to_owned(),
    }
}

/// Builds a digest now, outside the schedule, covering everything since the
/// one before. The projects are scanned before.
pub fn activity_build_digest(store: &mut Store, now: i64) -> (r: ToolResult)
    requires
        old(store)@.wf(),
        digest::buildable(old(store)@, now),
    ensures
        final(store)@.wf(),
        match digest::due(old(store)@, now as int) {
            None => final(store)@ == old(store)@ && (r matches Ok(text) && replies_with_digest(
                text@,
                None,
            )),
            Some(from) => exists|labels: digest::LabelsModel| #[trigger]
                labels.show(from as i64, now) && final(store)@ == digest::composed(
                    old(store)@,
                    from,
                    now as int,
                    labels,
                ).0 && match digest::composed(old(store)@, from, now as int, labels).1 {
                    Ok(_) => r matches Ok(text) && replies_with_digest(
                        text@,
                        Some(digest::composed_row(old(store)@, from, now as int, labels)),
                    ),
                    Err(e) => reply_view(r) == Err::<Seq<char>, Seq<char>>(
                        internal_text(failure_text(e)),
                    ),
                },
        },
{
    let digester = Digester::new();
    match digester.build(store, now) {
        Ok(built) => Ok(build_reply(&built)),
        Err(e) => {
            let text = store_failure(e);
            Err(internal(text.as_str()))
        },
    }
}

} // verus!
