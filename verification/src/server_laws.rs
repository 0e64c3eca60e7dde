//! What the replies of the tools hold.

use crate::journal_laws;
use crate::json;
use crate::json::Json;
use crate::period_laws;
use crate::server;
use crate::store::{DigestRowModel, EventModel, ProjectModel, StoreError, StoreModel};
use crate::text;
use crate::text_laws;
use crate::time;
use crate::time_laws;
use vstd::prelude::*;

verus! {

/// Whether a field shows a moment on a local clock.
pub open spec fn tells_moment(j: Json, key: Seq<char>, moment: i64) -> bool {
    json::json_field(j, key) matches Some(Json::Text(shown)) && time::is_rfc3339(shown, moment)
}

// --- digests -------------------------------------------------------------

/// A limit is kept between one and the most that is allowed, and stands where
/// it lies between them.
pub proof fn a_limit_is_kept_in_bounds(limit: u32, most: u32)
    requires
        most >= 1,
    ensures
        1 <= server::clamped(limit, most) <= most,
        1 <= limit <= most ==> server::clamped(limit, most) == limit,
        limit > most ==> server::clamped(limit, most) == most,
{
}

/// A call for digests gets the latest, at least one and at most fifty of them
/// as far as there are so many, and as many as it asks for between.
pub proof fn a_call_gets_the_digests_it_asks_for(s: StoreModel, unread_only: bool, limit: u32)
    ensures
        ({
            let rows = server::asked_digests(s, unread_only, limit);
            let count = s.digests.filter(journal_laws::not_read(unread_only)).len();
            &&& count > 0 ==> rows.len() > 0
            &&& rows.len() <= 50
            &&& rows.len() <= limit || rows.len() == 1
            &&& rows.len() < limit ==> rows.len() == count || rows.len() == 50
        }),
{
    let most = server::clamped(limit, server::MAX_DIGEST_LIMIT);
    journal_laws::listed_digests_are_the_latest(s, unread_only, most);
}

/// Whether a value tells a digest: its number, period and text, when it was
/// made and whether it was read.
pub open spec fn tells_digest(j: Json, d: DigestRowModel) -> bool {
    &&& json::json_field(j, "id"@) == Some(Json::Number(text::decimal_signed(d.id)))
    &&& tells_moment(j, "period_from"@, d.period_from as i64)
    &&& tells_moment(j, "period_to"@, d.period_to as i64)
    &&& tells_moment(j, "created_at"@, d.created_at as i64)
    &&& json::json_field(j, "acked"@) == Some(Json::Bool(d.acked_at is Some))
    &&& json::json_field(j, "text"@) == Some(Json::Text(d.text))
}

/// What shows a digest tells it.
pub proof fn a_shown_digest_is_told(j: Json, d: DigestRowModel)
    requires
        (server::shows_digest())(j, d),
    ensures
        tells_digest(j, d),
{
    reveal_strlit("id");
    reveal_strlit("period_from");
    reveal_strlit("period_to");
    reveal_strlit("created_at");
    reveal_strlit("acked");
    reveal_strlit("text");
    assert("id"@.len() == 2 && "period_from"@.len() == 11 && "period_to"@.len() == 9);
    assert("created_at"@.len() == 10 && "acked"@.len() == 5 && "text"@.len() == 4);
    let (from, to, created) = choose|from: Seq<char>, to: Seq<char>, created: Seq<char>|
        j == #[trigger] server::digest_object(d, from, to, created) && time::is_rfc3339(
            from,
            d.period_from as i64,
        ) && time::is_rfc3339(to, d.period_to as i64) && time::is_rfc3339(
            created,
            d.created_at as i64,
        );
    assert(json::json_field(j, "period_from"@) == Some(Json::Text(from)));
    assert(json::json_field(j, "period_to"@) == Some(Json::Text(to)));
    assert(json::json_field(j, "created_at"@) == Some(Json::Text(created)));
}

/// Whether a text is a reply that has the list under the name.
pub open spec fn replies_with_list(reply: Seq<char>, name: Seq<char>, items: Seq<Json>) -> bool {
    exists|j: Json|
        reply == #[trigger] json::reply_text(j) && json::json_field(j, name) == Some(
            Json::List(items),
        )
}

/// A reply with a list has it under its name.
pub proof fn a_list_stands_under_its_name(name: Seq<char>, items: Seq<Json>)
    ensures
        replies_with_list(server::list_reply(name, items), name, items),
{
    let j = Json::Object(map![name => Json::List(items)]);
    assert(json::json_field(j, name) == Some(Json::List(items)));
    assert(server::list_reply(name, items) == json::reply_text(j));
}

/// An acknowledgement succeeds where the digest is known, and either reply
/// names its number.
pub proof fn an_acknowledgement_names_the_digest(id: int, found: bool)
    ensures
        server::ack_reply(id, found) is Ok <==> found,
        server::ack_reply(id, found) matches Ok(reply) ==> text_laws::occurs(
            text::decimal_signed(id),
            reply,
        ),
        server::ack_reply(id, found) matches Err(reply) ==> text_laws::occurs(
            text::decimal_signed(id),
            reply,
        ),
{
    let number = text::decimal_signed(id);
    text_laws::lemma_occurs("Digest "@, number, " acknowledged"@);
    text_laws::lemma_occurs("сводки "@, number, " нет"@);
}

// --- projects ------------------------------------------------------------

/// Whether a value tells a project: its name, path, branch and uncommitted
/// files, its last activity and whether it is gone.
pub open spec fn tells_project(j: Json, p: ProjectModel) -> bool {
    &&& json::json_field(j, "name"@) == Some(Json::Text(p.name))
    &&& json::json_field(j, "path"@) == Some(Json::Text(p.path))
    &&& match p.head_branch {
        Some(branch) => json::json_field(j, "branch"@) == Some(Json::Text(branch)),
        None => json::json_field(j, "branch"@) == Some(Json::Null),
    }
    &&& json::json_field(j, "uncommitted_files"@) == Some(
        Json::Number(text::decimal_signed(p.dirty_files)),
    )
    &&& period_laws::holds_texts(j, "uncommitted_sample"@, p.dirty_sample)
    &&& match p.last_activity {
        Some(moment) => tells_moment(j, "last_activity"@, moment),
        None => json::json_field(j, "last_activity"@) == Some(Json::Null),
    }
    &&& json::json_field(j, "removed"@) == Some(Json::Bool(p.removed_at is Some))
}

/// What shows a project tells it.
pub proof fn a_shown_project_is_told(j: Json, p: ProjectModel)
    requires
        (server::shows_project())(j, p),
    ensures
        tells_project(j, p),
{
    reveal_strlit("name");
    reveal_strlit("path");
    reveal_strlit("branch");
    reveal_strlit("uncommitted_files");
    reveal_strlit("uncommitted_sample");
    reveal_strlit("last_activity");
    reveal_strlit("removed");
    assert("name"@.len() == 4 && "path"@.len() == 4 && "branch"@.len() == 6);
    assert("uncommitted_files"@.len() == 17 && "uncommitted_sample"@.len() == 18);
    assert("last_activity"@.len() == 13 && "removed"@.len() == 7);
    assert("name"@[0] == 'n' && "path"@[0] == 'p');
    let last = choose|last: Json|
        j == #[trigger] server::project_object(p, last) && server::shows_moment(
            last,
            p.last_activity,
        );
    assert(json::json_field(j, "last_activity"@) == Some(last));
    let items = period_laws::list_at(j, "uncommitted_sample"@);
    assert(items == p.dirty_sample.map_values(|t: Seq<char>| Json::Text(t)));
}

// --- changes -------------------------------------------------------------

/// A name may stand between white space; white space alone asks for all
/// projects, as no name does.
pub proof fn a_blank_name_asks_for_all(before: Seq<char>, name: Seq<char>, after: Seq<char>)
    requires
        text_laws::is_tight(name),
        forall|i: int| 0 <= i < before.len() ==> text::is_space(#[trigger] before[i]),
        forall|i: int| 0 <= i < after.len() ==> text::is_space(#[trigger] after[i]),
    ensures
        server::asked_project(None) is None,
        server::asked_project(Some(before)) is None,
        server::asked_project(Some(before + name + after)) == Some(name),
{
    text_laws::trimming_takes_off_white_space(before, name, after);
    text_laws::white_space_is_trimmed_to_nothing(before);
}

/// Events are asked of a project that has the name or lies at the path, if
/// there is one; a name that none has is refused, and named.
pub proof fn events_are_asked_of_a_named_project(s: StoreModel, name: Seq<char>)
    requires
        text_laws::is_tight(name),
        forall|i: int| 0 <= i < s.projects.len() ==> 0 <= (#[trigger] s.projects[i]).id <= i64::MAX,
    ensures
        server::events_of(s, None) == Ok::<Option<i64>, Seq<char>>(None),
        match server::events_of(s, Some(name)) {
            Ok(None) => false,
            Ok(Some(id)) => exists|i: int|
                0 <= i < s.projects.len() && journal_laws::answers_to(#[trigger] s.projects[i], name)
                    && s.projects[i].id == id,
            Err(e) => text_laws::occurs(name, e) && forall|i: int|
                0 <= i < s.projects.len() ==> !journal_laws::answers_to(
                    #[trigger] s.projects[i],
                    name,
                ),
        },
{
    text_laws::trimming_takes_off_white_space(seq![], name, seq![]);
    assert(seq![] + name + seq![] =~= name);
    journal_laws::a_project_is_found_by_name_or_path(s, name);
    text_laws::lemma_occurs(
        "проект «"@,
        name,
        "» не найден: список — activity_projects"@,
    );
}

/// A call for changes gets the newest, at least one and at most five hundred
/// of them as far as there are so many, and as many as it asks for between.
pub proof fn a_call_gets_the_changes_it_asks_for(
    s: StoreModel,
    project: Option<i64>,
    since: i64,
    limit: u32,
)
    requires
        s.wf(),
    ensures
        ({
            let rows = server::asked_events(s, project, since, limit);
            let count = s.events.filter(journal_laws::asked_for(project, since as int)).len();
            &&& count > 0 ==> rows.len() > 0
            &&& rows.len() <= 500
            &&& rows.len() <= limit || rows.len() == 1
            &&& rows.len() < limit ==> rows.len() == count || rows.len() == 500
            &&& forall|k: int|
                0 <= k < rows.len() ==> journal_laws::is_recorded(
                    s,
                    project,
                    since as int,
                    #[trigger] rows[k],
                )
        }),
{
    let most = server::clamped(limit, server::MAX_CHANGES_LIMIT);
    journal_laws::recent_events_are_the_newest(s, project, since as int, most);
}

/// Whether a text is a reply with the changes: their beginning, and for each
/// what happened, in which project and when, beside the fields of its payload.
pub open spec fn tells_changes(
    reply: Seq<char>,
    since: Seq<char>,
    events: Seq<EventModel>,
    stamps: Seq<Option<Seq<char>>>,
) -> bool {
    exists|j: Json|
        {
            &&& reply == #[trigger] json::reply_text(j)
            &&& json::json_field(j, "since"@) == Some(Json::Text(since))
            &&& period_laws::list_at(j, "changes"@).len() == events.len()
            &&& forall|i: int|
                0 <= i < events.len() ==> tells_change(
                    #[trigger] period_laws::list_at(j, "changes"@)[i],
                    events[i],
                    stamps[i],
                )
        }
}

/// Whether a value tells a change.
pub open spec fn tells_change(j: Json, e: EventModel, stamp: Option<Seq<char>>) -> bool {
    &&& json::json_field(j, "project"@) == Some(Json::Text(e.project))
    &&& json::json_field(j, "kind"@) == Some(Json::Text(e.kind))
    &&& stamp matches Some(seen_at) && json::json_field(j, "seen_at"@) == Some(Json::Text(seen_at))
    &&& forall|key: Seq<char>|
        key != "project"@ && key != "kind"@ && key != "seen_at"@ ==> #[trigger] json::json_field(
            j,
            key,
        ) == (match e.payload {
            Json::Object(_) => json::json_field(e.payload, key),
            _ => None,
        })
}

/// The reply with changes tells them all, in order; there is one if and only
/// if every moment has a text.
pub proof fn a_reply_tells_its_changes(
    since: Option<Seq<char>>,
    events: Seq<EventModel>,
    stamps: Seq<Option<Seq<char>>>,
)
    requires
        stamps.len() == events.len(),
    ensures
        server::changes_reply(since, events, stamps) is Some <==> since is Some && forall|i: int|
            0 <= i < stamps.len() ==> #[trigger] stamps[i] is Some,
        server::changes_reply(since, events, stamps) matches Some(reply) ==> tells_changes(
            reply,
            since->Some_0,
            events,
            stamps,
        ),
{
    if server::changes_reply(since, events, stamps) is Some {
        let items = server::change_objects(events, stamps);
        let j = Json::Object(
            map!["since"@ => Json::Text(since->Some_0), "changes"@ => Json::List(items)],
        );
        reveal_strlit("since");
        reveal_strlit("changes");
        assert("since"@.len() == 5 && "changes"@.len() == 7);
        assert(json::json_field(j, "since"@) == Some(Json::Text(since->Some_0)));
        assert(period_laws::list_at(j, "changes"@) == items);
        assert forall|i: int| 0 <= i < events.len() implies tells_change(
            #[trigger] period_laws::list_at(j, "changes"@)[i],
            events[i],
            stamps[i],
        ) by {
            assert(stamps[i] is Some);
            let seen_at = stamps[i]->Some_0;
            let item = server::change_object(events[i], seen_at);
            assert(items[i] == item);
            server::a_payload_hides_nothing(events[i], seen_at, "project"@);
            assert forall|key: Seq<char>|
                key != "project"@ && key != "kind"@ && key != "seen_at"@ implies
                #[trigger] json::json_field(item, key) == (match events[i].payload {
                Json::Object(_) => json::json_field(events[i].payload, key),
                _ => None,
            }) by {
                server::a_payload_hides_nothing(events[i], seen_at, key);
            }
        }
        assert(server::changes_reply(since, events, stamps)->Some_0 == json::reply_text(j));
    }
}

/// A call that gives no beginning asks for the changes of seven days.
pub proof fn changes_go_back_seven_days(now: i64, start: Result<i64, Seq<char>>)
    ensures
        time::is_start(server::asked_since(None), now, start) ==> time_laws::is_moment(
            start,
            now - 7 * 24 * 60 * 60,
        ),
{
    reveal_strlit("7d");
    let seven = text::decimal(7);
    assert(seven =~= seq!['7']) by {
        assert(text::digit_char(7) == '7');
    }
    assert("7d"@ =~= time_laws::spelled(7, 'd'));
    time_laws::a_relative_start_lies_back(7, now, start);
}

/// A call that gives a beginning asks for it.
pub proof fn a_given_beginning_is_asked_for(since: Seq<char>)
    ensures
        server::asked_since(Some(since)) == since,
{
}

// --- building ------------------------------------------------------------

/// Whether a text is the reply to building: the digest, or nothing and a note.
pub open spec fn tells_built(reply: Seq<char>, row: Option<DigestRowModel>) -> bool {
    exists|j: Json|
        {
            &&& reply == #[trigger] json::reply_text(j)
            &&& match row {
                Some(d) => json::json_field(j, "digest"@) matches Some(shown) && tells_digest(
                    shown,
                    d,
                ),
                None => json::json_field(j, "digest"@) == Some(Json::Null) && json::json_field(
                    j,
                    "note"@,
                ) is Some,
            }
        }
}

/// The reply to building tells the digest that was built, or that there is
/// none.
pub proof fn the_reply_tells_what_was_built(reply: Seq<char>, row: Option<DigestRowModel>)
    requires
        server::replies_with_digest(reply, row),
    ensures
        tells_built(reply, row),
{
    match row {
        Some(d) => {
            let shown = choose|shown: Json| #[trigger]
                (server::shows_digest())(shown, d) && reply == json::reply_text(
                    Json::Object(map!["digest"@ => shown]),
                );
            a_shown_digest_is_told(shown, d);
            let j = Json::Object(map!["digest"@ => shown]);
            assert(json::json_field(j, "digest"@) == Some(shown));
            assert(reply == json::reply_text(j));
        },
        None => {
            let j = server::nothing_new();
            reveal_strlit("digest");
            reveal_strlit("note");
            assert("digest"@.len() == 6 && "note"@.len() == 4);
            assert(json::json_field(j, "digest"@) == Some(Json::Null));
            assert(reply == json::reply_text(j));
        },
    }
}

/// What is said of a store that failed names the failure, and the failures
/// are told apart.
pub proof fn a_failure_is_named(e: StoreError, f: StoreError)
    ensures
        text_laws::occurs(
            server::failure_text(e),
            server::internal_text(server::failure_text(e)),
        ),
        server::failure_text(e) == server::failure_text(f) ==> e == f,
{
    let head = "ошибка хранилища: "@;
    let told = server::failure_text(e);
    text_laws::lemma_occurs(head, told, seq![]);
    assert(head + told + seq![] =~= server::internal_text(told));
    reveal_strlit("проекта нет");
    reveal_strlit("номера кончились");
    assert("проекта нет"@.len() == 11 && "номера кончились"@.len() == 16);
}

} // verus!
