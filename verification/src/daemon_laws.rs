//! What the loops of the daemon and its routes keep to.

use crate::daemon;
use crate::daemon::{ActionModel, Event, Step, Turn};
use crate::discovery;
use crate::json;
use crate::json::Json;
use crate::period_laws;
use crate::text;
use crate::text_laws;
use crate::time;
use std::time::Duration;
use vstd::prelude::*;

verus! {

// --- gathering changes ---------------------------------------------------

/// All projects are scanned when the time for it has come and at no other;
/// the paths that are pending are scanned when gathering is over, all of them
/// and no others, and none is pending then. A change that is passed over
/// leaves what is pending as it is, and so does a full scan.
pub proof fn the_loop_acts_in_time(
    walker: discovery::WalkerModel,
    pending: Seq<Seq<char>>,
    event: Event,
)
    ensures
        ({
            let (after, action) = daemon::after_event(walker, pending, event);
            &&& action is RescanAll <==> event is Rescan
            &&& action is ScanPaths <==> event is Debounce && pending.len() > 0
            &&& action matches ActionModel::ScanPaths(paths) ==> paths == pending && after.len()
                == 0
            &&& event is Rescan ==> after == pending
            &&& event matches Event::Changed(path) ==> (if discovery::is_relevant(walker, path@)
                && !pending.contains(path@) {
                after.len() == pending.len() + 1 && after.last() == path@ && after.drop_last()
                    == pending
            } else {
                after == pending
            })
        }),
{
    let (after, action) = daemon::after_event(walker, pending, event);
    if let Event::Changed(path) = event {
        if after != pending {
            assert(after.drop_last() =~= pending);
        }
    }
}

// --- retention -----------------------------------------------------------

/// Rows are dropped that are older than the retention in whole seconds.
pub proof fn a_retention_counts_whole_seconds(retention: Duration)
    requires
        time::duration_nanos(retention) < 0x8000_0000_0000_0000 * 1_000_000_000,
    ensures
        ({
            let kept = time::signed(daemon::whole_seconds(retention));
            kept * 1_000_000_000 <= time::duration_nanos(retention) < (kept + 1) * 1_000_000_000
        }),
{
    let n = time::duration_nanos(retention) as int;
    assert(n / 1_000_000_000 < 0x8000_0000_0000_0000) by (nonlinear_arith)
        requires
            n < 0x8000_0000_0000_0000 * 1_000_000_000,
    ;
}

// --- the schedule --------------------------------------------------------

/// A sleep before a run lasts until it, or a minute where that is sooner.
pub proof fn a_sleep_lasts_a_minute_or_up_to_the_run(next: int, now: int)
    ensures
        daemon::portion(next, now) is None <==> next <= now,
        daemon::portion(next, now) matches Some(secs) ==> secs > 0 && now + secs <= next && secs
            <= 60 && (now + secs == next || secs == 60),
{
}

/// When the loop that keeps the schedule does what: it makes a digest at the
/// time of a run and where one was slept through, plans after each, waits for
/// what was planned, and stops where nothing is.
pub proof fn every_run_is_planned_awaited_and_made(turn: Turn)
    ensures
        daemon::next_step(turn) is Make <==> (turn matches Turn::Started { missed } && missed) || (
        turn matches Turn::Waited { next, now } && next <= now),
        daemon::next_step(turn) is Plan <==> turn is Made || (turn matches Turn::Started { missed }
            && !missed),
        daemon::next_step(turn) is Stop <==> turn == Turn::Planned(None),
        daemon::next_step(turn) matches Step::Await { next } ==> turn == Turn::Planned(Some(next)),
        daemon::next_step(turn) matches Step::Sleep { next, secs } ==> (
        turn matches Turn::Waited { next: n, now } && n == next && now + secs <= next && 0 < secs
            <= 60),
{
}

// --- the routes ----------------------------------------------------------

/// Where a token is expected, exactly the header that presents it passes;
/// where none is, every request does.
pub proof fn only_the_bearer_of_the_token_passes(token: Seq<char>, presented: Seq<char>)
    ensures
        daemon::is_admitted(Some(token), Some("Bearer "@ + presented)) <==> presented == token,
        !daemon::is_admitted(Some(token), None),
        !"Bearer "@.is_prefix_of(presented) ==> !daemon::is_admitted(Some(token), Some(presented)),
        daemon::is_admitted(None, Some(presented)),
        daemon::is_admitted(None, None),
{
    let prefix = "Bearer "@;
    let header = prefix + presented;
    assert(header.subrange(0, prefix.len() as int) =~= prefix);
    assert(header.skip(prefix.len() as int) =~= presented);
}

/// White space around the token in a file is no part of it, and a file of
/// white space has none.
pub proof fn a_token_file_may_have_white_space_around(
    before: Seq<char>,
    token: Seq<char>,
    after: Seq<char>,
)
    requires
        text_laws::is_tight(token),
        forall|i: int| 0 <= i < before.len() ==> text::is_space(#[trigger] before[i]),
        forall|i: int| 0 <= i < after.len() ==> text::is_space(#[trigger] after[i]),
    ensures
        daemon::token_in(before + token + after) == Some(token),
        daemon::token_in(before) is None,
{
    text_laws::trimming_takes_off_white_space(before, token, after);
    text_laws::white_space_is_trimmed_to_nothing(before);
}

/// The reply of a daemon that works tells the number of projects, the roots,
/// the schedule and the time of the next digest.
pub proof fn a_healthy_daemon_says_so(
    projects: nat,
    roots: Seq<Seq<char>>,
    schedule: Seq<char>,
    next_digest: Json,
)
    ensures
        ({
            let j = daemon::health_object(projects, roots, schedule, next_digest);
            &&& json::json_field(j, "status"@) == Some(Json::Text("ok"@))
            &&& period_laws::holds_count(j, "projects"@, projects)
            &&& period_laws::holds_texts(j, "roots"@, roots)
            &&& json::json_field(j, "schedule"@) == Some(Json::Text(schedule))
            &&& json::json_field(j, "next_digest"@) == Some(next_digest)
        }),
{
    reveal_strlit("status");
    reveal_strlit("projects");
    reveal_strlit("roots");
    reveal_strlit("schedule");
    reveal_strlit("next_digest");
    assert("status"@.len() == 6 && "projects"@.len() == 8 && "roots"@.len() == 5);
    assert("schedule"@.len() == 8 && "next_digest"@.len() == 11);
    assert("projects"@[0] == 'p' && "schedule"@[0] == 's');
}

/// The reply of a daemon whose store fails tells the error.
pub proof fn a_sick_daemon_says_so(error: Seq<char>)
    ensures
        json::json_field(daemon::sickness_object(error), "status"@) == Some(
            Json::Text("error"@),
        ),
        json::json_field(daemon::sickness_object(error), "error"@) == Some(Json::Text(error)),
{
    reveal_strlit("status");
    reveal_strlit("error");
    assert("status"@.len() == 6 && "error"@.len() == 5);
}

} // verus!
