//! The decisions of the daemon's background loops and of its HTTP routes.

use crate::daemon_laws;
use crate::discovery;
use crate::discovery::Walker;
use crate::json;
use crate::json::Json;
use crate::server;
use crate::text;
use crate::time;
use serde_json::Value;
use std::time::Duration;
use vstd::prelude::*;

verus! {

/// Changes of files are gathered for that many seconds and looked at together:
/// saving a file or committing makes dozens of events in a row.
pub const DEBOUNCE_SECS: u64 = 10;

/// The scheduler sleeps in portions of that many seconds: some monotonic
/// clocks stand still while the machine sleeps, and one long sleep would miss
/// the time of a run.
pub const SCHEDULER_STEP_SECS: u64 = 60;

// --- gathering changes ---------------------------------------------------

/// What happens to the loop that collects changes.
#[derive(Debug, Clone, PartialEq)]
pub enum Event {
    /// A file changed.
    Changed(String),
    /// The time for gathering is over.
    Debounce,
    /// The time for a full scan has come.
    Rescan,
}

/// What the loop that collects changes is to do.
#[derive(Debug, Clone, PartialEq)]
pub enum Action {
    /// Wait for the next event.
    Wait,
    /// Scan the projects that the paths belong to.
    ScanPaths(Vec<String>),
    /// Look for projects, scan all of them, and drop what is too old.
    RescanAll,
}

/// What is to be done.
pub enum ActionModel {
    Wait,
    ScanPaths(Seq<Seq<char>>),
    RescanAll,
}

impl View for Action {
    type V = ActionModel;

    open spec fn view(&self) -> ActionModel {
        match self {
            Action::Wait => ActionModel::Wait,
            Action::ScanPaths(paths) => ActionModel::ScanPaths(text::texts(paths@)),
            Action::RescanAll => ActionModel::RescanAll,
        }
    }
}

/// The paths that changed since the last scan, each once.
#[derive(Debug, Clone)]
pub struct Pending {
    pub paths: Vec<String>,
}

impl View for Pending {
    type V = Seq<Seq<char>>;

    open spec fn view(&self) -> Seq<Seq<char>> {
        text::texts(self.paths@)
    }
}

/// What is pending after an event, and what to do. A change in a directory
/// that is left out is passed over; a scan takes all that is pending.
pub open spec fn after_event(
    walker: discovery::WalkerModel,
    pending: Seq<Seq<char>>,
    event: Event,
) -> (Seq<Seq<char>>, ActionModel) {
    match event {
        Event::Changed(path) => if discovery::is_relevant(walker, path@) && !pending.contains(
            path@,
        ) {
            (pending.push(path@), ActionModel::Wait)
        } else {
            (pending, ActionModel::Wait)
        },
        Event::Debounce => if pending.len() == 0 {
            (pending, ActionModel::Wait)
        } else {
            (seq![], ActionModel::ScanPaths(pending))
        },
        Event::Rescan => (pending, ActionModel::RescanAll),
    }
}

impl Pending {
    pub fn new() -> (r: Pending)
        ensures
            r@ == Seq::<Seq<char>>::empty(),
    {
        let r = Pending { paths: Vec::new() };
        assert(r@ =~= Seq::<Seq<char>>::empty());
        r
    }

    /// Takes an event, and tells what to do.
    pub fn on_event(&mut self, walker: &Walker, event: Event) -> (r: Action)
        ensures
            final(self)@ == after_event(walker@, old(self)@, event).0,
            r@ == after_event(walker@, old(self)@, event).1,
    {
        match event {
            Event::Changed(path) => {
                if walker.is_relevant(path.as_str()) && !text::has(&self.paths, path.as_str()) {
                    let ghost before = self@;
                    self.paths.push(path);
                    assert(self@ =~= before.push(path@));
                }
                Action::Wait
            },
            Event::Debounce => {
                assert(self@.len() == self.paths@.len());
                if self.paths.len() == 0 {
                    Action::Wait
                } else {
                    let paths = text::copy_list(&self.paths);
                    self.paths = Vec::new();
                    assert(self@ =~= seq![]);
                    Action::ScanPaths(paths)
                }
            },
            Event::Rescan => Action::RescanAll,
        }
    }
}

/// No path is pending twice, and every one is of interest, whatever events
/// come.
pub proof fn pending_paths_are_relevant_and_distinct(
    walker: discovery::WalkerModel,
    pending: Seq<Seq<char>>,
    event: Event,
)
    requires
        pending.no_duplicates(),
        forall|i: int| 0 <= i < pending.len() ==> discovery::is_relevant(walker, #[trigger] pending[i]),
    ensures
        ({
            let after = after_event(walker, pending, event).0;
            &&& after.no_duplicates()
            &&& forall|i: int|
                0 <= i < after.len() ==> discovery::is_relevant(walker, #[trigger] after[i])
        }),
{
}

/// No change is lost: a path of interest is pending after its event, and what
/// is pending stays so until a scan takes it.
pub proof fn a_relevant_change_stays_pending(
    walker: discovery::WalkerModel,
    pending: Seq<Seq<char>>,
    event: Event,
    path: Seq<char>,
)
    requires
        pending.contains(path) || (event matches Event::Changed(changed) && changed@ == path
            && discovery::is_relevant(walker, path)),
    ensures
        ({
            let (after, action) = after_event(walker, pending, event);
            after.contains(path) || (action matches ActionModel::ScanPaths(paths) && paths.contains(
                path,
            ))
        }),
{
    let (after, action) = after_event(walker, pending, event);
    match event {
        Event::Changed(changed) => {
            if pending.contains(path) {
                let k = choose|k: int| 0 <= k < pending.len() && pending[k] == path;
                assert(after[k] == path);
            } else {
                assert(after.last() == path);
            }
        },
        _ => {},
    }
}

// --- retention -----------------------------------------------------------

/// The seconds of a duration, a part of a second left out.
pub open spec fn whole_seconds(d: Duration) -> nat {
    (time::duration_nanos(d) / 1_000_000_000) as nat
}

/// Whether the moment before which rows are dropped stays within 64 bits.
pub open spec fn retention_fits(now: i64, retention: Duration) -> bool {
    i64::MIN <= now - time::signed(whole_seconds(retention)) <= i64::MAX
}

/// Whether [`prune_before`] can be asked.
pub fn can_prune(now: i64, retention: &Duration) -> (r: bool)
    ensures
        r == retention_fits(now, *retention),
{
    let kept = time::to_signed(retention.as_secs()) as i128;
    let before: i128 = now as i128 - kept;
    i64::MIN as i128 <= before && before <= i64::MAX as i128
}

/// The moment before which rows are dropped.
pub fn prune_before(now: i64, retention: &Duration) -> (r: i64)
    requires
        retention_fits(now, *retention),
    ensures
        r == now - time::signed(whole_seconds(*retention)),
        time::duration_nanos(*retention) < 0x8000_0000_0000_0000 * 1_000_000_000 ==> (now - r)
            * 1_000_000_000 <= time::duration_nanos(*retention) < (now - r + 1) * 1_000_000_000,
{
    proof {
        if time::duration_nanos(*retention) < 0x8000_0000_0000_0000 * 1_000_000_000 {
            daemon_laws::a_retention_counts_whole_seconds(*retention);
        }
    }
    now - time::to_signed(retention.as_secs())
}

// --- the schedule --------------------------------------------------------

/// How long to sleep before a run: at most a portion, and nothing where its
/// time has come.
pub open spec fn portion(next: int, now: int) -> Option<int> {
    if next - now <= 0 {
        None
    } else if next - now > SCHEDULER_STEP_SECS {
        Some(SCHEDULER_STEP_SECS as int)
    } else {
        Some(next - now)
    }
}

/// How long to sleep before the run at `next`; nothing where its time has
/// come.
pub fn sleep_before(next: i64, now: i64) -> (r: Option<u64>)
    ensures
        r is Some <==> portion(next as int, now as int) is Some,
        r matches Some(secs) ==> portion(next as int, now as int) == Some(secs as int),
{
    let left: i128 = next as i128 - now as i128;
    if left <= 0 {
        None
    } else if left > SCHEDULER_STEP_SECS as i128 {
        Some(SCHEDULER_STEP_SECS)
    } else {
        Some(left as u64)
    }
}

/// What happens to the loop that keeps the schedule.
#[derive(Debug, Clone, Copy, PartialEq)]
pub enum Turn {
    /// The daemon has started, and may have slept through a run.
    Started { missed: bool },
    /// A digest has been made, or there was nothing to make one of.
    Made,
    /// The schedule was asked for the next run.
    Planned(Option<i64>),
    /// The time before the run at `next` was looked at.
    Waited { next: i64, now: i64 },
}

/// What the loop that keeps the schedule is to do.
#[derive(Debug, Clone, Copy, PartialEq)]
pub enum Step {
    /// Make a digest.
    Make,
    /// Ask the schedule for the next run.
    Plan,
    /// Look at the time before the run at `next`.
    Await { next: i64 },
    /// Sleep that many seconds before looking again.
    Sleep { next: i64, secs: u64 },
    /// There are no more runs.
    Stop,
}

/// What to do next: a run that was slept through is made up for at once, and
/// every other one is made when its time has come.
pub open spec fn next_step(turn: Turn) -> Step {
    match turn {
        Turn::Started { missed } => if missed {
            Step::Make
        } else {
            Step::Plan
        },
        Turn::Made => Step::Plan,
        Turn::Planned(next) => match next {
            Some(next) => Step::Await { next },
            None => Step::Stop,
        },
        Turn::Waited { next, now } => match portion(next as int, now as int) {
            Some(secs) => Step::Sleep { next, secs: secs as u64 },
            None => Step::Make,
        },
    }
}

/// What to do next.
pub fn schedule_step(turn: Turn) -> (r: Step)
    ensures
        r == next_step(turn),
{
    match turn {
        Turn::Started { missed } => if missed {
            Step::Make
        } else {
            Step::Plan
        },
        Turn::Made => Step::Plan,
        Turn::Planned(next) => match next {
            Some(next) => Step::Await { next },
            None => Step::Stop,
        },
        Turn::Waited { next, now } => match sleep_before(next, now) {
            Some(secs) => Step::Sleep { next, secs },
            None => Step::Make,
        },
    }
}

/// A planned run is made when its time has come, not before and not never.
pub proof fn a_run_is_made_in_its_time(next: i64, now: i64)
    ensures
        next_step(Turn::Waited { next, now }) == Step::Make <==> next <= now,
{
}

/// A sleeper never oversleeps a run, and wakes at least once a minute.
pub proof fn a_portion_ends_in_time(next: int, now: int)
    ensures
        portion(next, now) matches Some(secs) ==> 0 < secs <= SCHEDULER_STEP_SECS && now + secs
            <= next,
        portion(next, now) is None <==> next <= now,
{
}

// --- the routes ----------------------------------------------------------

/// The token in a header that presents one.
pub open spec fn bearer(header: Seq<char>) -> Option<Seq<char>> {
    if "Bearer "@.is_prefix_of(header) {
        Some(header.skip("Bearer "@.len() as int))
    } else {
        None
    }
}

/// Whether a request may pass: no token is expected, or the header presents
/// exactly the expected one.
pub open spec fn is_admitted(expected: Option<Seq<char>>, header: Option<Seq<char>>) -> bool {
    match expected {
        None => true,
        Some(token) => match header {
            Some(value) => bearer(value) == Some(token),
            None => false,
        },
    }
}

/// Whether a request may pass.
pub fn require_token(expected: &Option<String>, header: &Option<String>) -> (r: bool)
    ensures
        r == is_admitted(text::text_opt(*expected), text::text_opt(*header)),
{
    let token = match expected {
        Some(token) => token,
        None => {
            return true;
        },
    };
    let value = match header {
        Some(value) => value,
        None => {
            return false;
        },
    };
    let presented = text::concat2("Bearer ", token.as_str());
    let r = text::same(presented.as_str(), value.as_str());
    proof {
        let prefix = "Bearer "@;
        if r {
            assert(value@.subrange(0, prefix.len() as int) =~= prefix);
            assert(value@.skip(prefix.len() as int) =~= token@);
        } else if bearer(value@) == Some(token@) {
            assert(value@ =~= prefix + token@);
        }
    }
    r
}

/// The token in a file: white space at its ends is not part of it, and a blank
/// file holds none.
pub open spec fn token_in(file: Seq<char>) -> Option<Seq<char>> {
    if text::trimmed(file).len() > 0 {
        Some(text::trimmed(file))
    } else {
        None
    }
}

/// The token in a file.
pub fn read_token(file: &str) -> (r: Option<String>)
    ensures
        text::text_opt(r) == token_in(file@),
{
    let chars = text::chars_of(file);
    let token = text::trim(chars.as_slice());
    if token.len() > 0 {
        Some(text::string_of(token))
    } else {
        None
    }
}

/// The reply of a daemon that works, with the time of the next digest.
pub open spec fn health_object(
    projects: nat,
    roots: Seq<Seq<char>>,
    schedule: Seq<char>,
    next_digest: Json,
) -> Json {
    Json::Object(
        map![
            "status"@ => Json::Text("ok"@),
            "projects"@ => Json::Number(text::decimal(projects)),
            "roots"@ => json::texts_json(roots),
            "schedule"@ => Json::Text(schedule),
            "next_digest"@ => next_digest,
        ],
    )
}

/// The reply of a daemon that works.
pub fn health(projects: usize, roots: &Vec<String>, schedule: &str, next_digest: Option<i64>) -> (r:
    Value)
    requires
        next_digest matches Some(t) ==> time::clear_of_edges(t),
    ensures
        exists|next: Json| #[trigger]
            server::shows_moment(next, next_digest) && json::json_view(r) == health_object(
                projects as nat,
                text::texts(roots@),
                schedule@,
                next,
            ),
{
    let next = server::moment_value(next_digest);
    let ghost shown = json::json_view(next);
    let mut r = json::object_value();
    json::set_field(&mut r, "status", json::text_value("ok"));
    json::set_field(&mut r, "projects", json::count_value(projects as u64));
    json::set_field(&mut r, "roots", json::texts_value(roots));
    json::set_field(&mut r, "schedule", json::text_value(schedule));
    json::set_field(&mut r, "next_digest", next);
    assert(server::shows_moment(shown, next_digest));
    r
}

/// The reply of a daemon whose store fails.
pub open spec fn sickness_object(error: Seq<char>) -> Json {
    Json::Object(map!["status"@ => Json::Text("error"@), "error"@ => Json::Text(error)])
}

/// The reply of a daemon whose store fails.
pub fn sickness(error: &str) -> (r: Value)
    ensures
        json::json_view(r) == sickness_object(error@),
{
    let mut r = json::object_value();
    json::set_field(&mut r, "status", json::text_value("error"));
    json::set_field(&mut r, "error", json::text_value(error));
    r
}

} // verus!
