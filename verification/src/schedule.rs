//! The schedule of digests: a cron expression in local time.

use crate::text;
use crate::time;
use chrono::{Local, TimeZone};
use cron::Schedule as Cron;
use std::str::FromStr;
use vstd::prelude::*;

verus! {

/// `cron::Schedule`, a parsed cron expression.
#[verifier::external_type_specification]
#[verifier::external_body]
pub struct ExCron(Cron);

/// The expression that a schedule was parsed from, as `cron::Schedule::source`
/// gives it.
pub uninterp spec fn cron_source(schedule: Cron) -> Seq<char>;

/// What `cron::Schedule::from_str` says of a text that is no cron expression;
/// nothing for one that is.
pub uninterp spec fn cron_error(text: Seq<char>) -> Option<Seq<char>>;

/// `cron::Schedule::from_str`: the schedule of a cron expression of six or
/// seven fields, which remembers the expression, or an error, whose text
/// depends on the expression alone.
#[verifier::external_body]
fn parse_cron(text: &str) -> (r: Result<Cron, String>)
    ensures
        match cron_error(text@) {
            Some(e) => r matches Err(f) && f@ == e,
            None => r matches Ok(schedule) && cron_source(schedule) == text@,
        },
{
    Cron::from_str(text).map_err(|e| e.to_string())
}

/// `<cron::Schedule as Clone>::clone` gives a schedule of the same expression.
pub assume_specification[ <Cron as Clone>::clone ](parsed: &Cron) -> (r: Cron)
    ensures
        cron_source(r) == cron_source(*parsed),
;

/// The first two moments that the iterator of `cron::Schedule::after` gives for
/// an expression, after a moment, on a clock that keeps the rules of a time
/// zone.
pub uninterp spec fn cron_runs(source: Seq<char>, after: i64, zone: Seq<u8>) -> (
    Option<i64>,
    Option<i64>,
);

/// A moment that a schedule comes to, and the distance of the local clock from
/// UTC then.
#[derive(Debug, Clone, Copy, PartialEq, Eq, Structural)]
pub struct Run {
    pub moment: i64,
    pub offset: i32,
}

impl Run {
    /// What the local clock shows then, as the second at which a UTC clock
    /// shows it.
    pub open spec fn wall(self) -> int {
        self.moment + self.offset
    }
}

/// A moment on a clock that keeps the rules of a time zone, if there is one.
pub open spec fn run_in(moment: Option<i64>, zone: Seq<u8>) -> Option<Run> {
    match moment {
        Some(m) => Some(Run { moment: m, offset: time::zone_offset(m, zone) }),
        None => None,
    }
}

/// `cron::Schedule::after`, the first two moments that its iterator gives on
/// the local clock, each with the clock's distance from UTC, which
/// `DateTime::with_timezone` looks up anew for `Local`. They depend on the
/// schedule's expression, on `after`, and on the rules of the machine's time
/// zone, of which nothing is said. Where the clock is set back, a time of day
/// comes twice, and its two moments are given one after the other, in either
/// order; so are the two for the time of day at which the clock is set back, of
/// which only one shows it. Nothing comes after a second without a calendar
/// date; the call panics at the last second of the calendar.
#[verifier::external_body]
fn upcoming(schedule: &Cron, after: i64) -> (r: (Option<Run>, Option<Run>))
    requires
        after != time::LAST_MOMENT,
    ensures
        exists|zone: Seq<u8>|
            {
                let runs = #[trigger] cron_runs(cron_source(*schedule), after, zone);
                r.0 == run_in(runs.0, zone) && r.1 == run_in(runs.1, zone)
            },
        !time::in_calendar(after as int) ==> r.0 is None && r.1 is None,
{
    let Some(start) = Local.timestamp_opt(after, 0).single() else {
        return (None, None);
    };
    let mut runs = schedule.after(&start).map(|m| m.with_timezone(&Local)).map(|m| Run {
        moment: m.timestamp(),
        offset: m.offset().local_minus_utc(),
    });
    (runs.next(), runs.next())
}

/// The schedule of digests.
#[derive(Debug)]
pub struct Schedule {
    cron: Cron,
    expression: String,
}

/// What a schedule holds: the expression as it was given, and the one of
/// six or seven fields that it stands for.
pub struct ScheduleModel {
    pub expression: Seq<char>,
    pub cron: Seq<char>,
}

impl View for Schedule {
    type V = ScheduleModel;

    closed spec fn view(&self) -> ScheduleModel {
        ScheduleModel { expression: self.expression@, cron: cron_source(self.cron) }
    }
}

impl Clone for Schedule {
    fn clone(&self) -> (r: Schedule)
        ensures
            r@ == self@,
    {
        Schedule { cron: self.cron.clone(), expression: self.expression.clone() }
    }
}

/// The expression with seconds: one of five fields runs at the full minute.
pub open spec fn with_seconds(expression: Seq<char>) -> Seq<char> {
    if text::word_count(expression) == 5 {
        "0 "@ + expression
    } else {
        expression
    }
}

/// What is said of an expression that is none.
pub open spec fn bad_schedule(expression: Seq<char>, error: Seq<char>) -> Seq<char> {
    "неверное расписание «"@ + expression + "»: "@ + error
}

/// Whether the second of two runs is the nearer one: it comes before the first,
/// but after `after`, and the local clock shows the same at both.
pub open spec fn is_nearer(first: Run, second: Run, after: i64) -> bool {
    after < second.moment < first.moment && first.wall() == second.wall()
}

/// The run that is due next after `after`, of the two that a schedule comes to:
/// the first, unless the second is nearer or only the second is after `after`.
pub open spec fn first_after(first: Option<Run>, second: Option<Run>, after: i64) -> Option<i64> {
    match (first, second) {
        (Some(a), Some(b)) => if a.moment > after && !is_nearer(a, b, after) {
            Some(a.moment)
        } else if b.moment > after {
            Some(b.moment)
        } else {
            None
        },
        (Some(a), None) => if a.moment > after {
            Some(a.moment)
        } else {
            None
        },
        (None, Some(b)) => if b.moment > after {
            Some(b.moment)
        } else {
            None
        },
        (None, None) => None,
    }
}

/// The run that is due next after `after`, of the two that a schedule comes to.
/// Where a clock that is set back shows one time of day twice, it is the
/// nearer of the two.
pub fn next_of(first: Option<Run>, second: Option<Run>, after: i64) -> (r: Option<i64>)
    ensures
        r == first_after(first, second, after),
        r matches Some(next) ==> next > after,
{
    if let Some(a) = first {
        if a.moment > after {
            if let Some(b) = second {
                let same = a.moment as i128 + a.offset as i128 == b.moment as i128
                    + b.offset as i128;
                if after < b.moment && b.moment < a.moment && same {
                    return Some(b.moment);
                }
            }
            return Some(a.moment);
        }
    }
    if let Some(b) = second {
        if b.moment > after {
            return Some(b.moment);
        }
    }
    None
}

/// The run of an expression strictly after a moment, in a time zone.
pub open spec fn run_after(cron: Seq<char>, after: i64, zone: Seq<u8>) -> Option<i64> {
    let runs = cron_runs(cron, after, zone);
    first_after(run_in(runs.0, zone), run_in(runs.1, zone), after)
}

/// Whether a run that was due at `next` has been missed by now.
pub open spec fn is_missed(next: Option<i64>, now: i64) -> bool {
    next matches Some(moment) && moment <= now
}

/// Whether a run that was due at `next` has been missed by now.
pub fn missed_run(next: Option<i64>, now: i64) -> (r: bool)
    ensures
        r == is_missed(next, now),
{
    match next {
        Some(moment) => moment <= now,
        None => false,
    }
}

impl Schedule {
    /// Takes the classic five fields (`0 9,18 * * *`) as well as six or seven
    /// with seconds in front (`0 0 9,18 * * *`).
    pub fn parse(expression: &str) -> (r: Result<Schedule, String>)
        ensures
            ({
                let trimmed = text::trimmed(expression@);
                match cron_error(with_seconds(trimmed)) {
                    Some(e) => r matches Err(f) && f@ == bad_schedule(trimmed, e),
                    None => r matches Ok(schedule) && schedule@ == (ScheduleModel {
                        expression: trimmed,
                        cron: with_seconds(trimmed),
                    }),
                }
            }),
    {
        let chars = text::chars_of(expression);
        let trimmed = text::trim(chars.as_slice());
        let expression = text::string_of(trimmed);
        let full = if text::count_words(trimmed) == 5 {
            text::concat2("0 ", expression.as_str())
        } else {
            expression.clone()
        };
        match parse_cron(full.as_str()) {
            Ok(cron) => Ok(Schedule { cron, expression }),
            Err(error) => {
                let mut message = text::concat3("неверное расписание «", expression.as_str(), "»: ");
                message.append(error.as_str());
                Err(message)
            },
        }
    }

    pub fn expression(&self) -> (r: &str)
        ensures
            r@ == self@.expression,
    {
        self.expression.as_str()
    }

    /// The next run strictly after `after`, in Unix seconds: that of the
    /// schedule's expression in the machine's time zone. After a second without
    /// a calendar date there is none.
    pub fn next_after(&self, after: i64) -> (r: Option<i64>)
        requires
            after != time::LAST_MOMENT,
        ensures
            exists|zone: Seq<u8>| r == #[trigger] run_after(self@.cron, after, zone),
            r matches Some(next) ==> next > after,
            !time::in_calendar(after as int) ==> r is None,
    {
        let (first, second) = upcoming(&self.cron, after);
        proof {
            let zone = choose|zone: Seq<u8>|
                {
                    let runs = #[trigger] cron_runs(self@.cron, after, zone);
                    first == run_in(runs.0, zone) && second == run_in(runs.1, zone)
                };
            assert(first_after(first, second, after) == run_after(self@.cron, after, zone));
        }
        next_of(first, second, after)
    }

    /// Whether there was a run after `last`, up to now, that was slept through:
    /// the daemon was off, or the machine asleep. Without a digest before, none
    /// was missed: the first digest comes by the schedule.
    pub fn missed(&self, last: Option<i64>, now: i64) -> (r: bool)
        requires
            last != Some(time::LAST_MOMENT),
        ensures
            match last {
                Some(moment) => exists|zone: Seq<u8>|
                    r == is_missed(#[trigger] run_after(self@.cron, moment, zone), now),
                None => !r,
            },
            r ==> (last matches Some(moment) && moment < now && time::in_calendar(moment as int)),
    {
        match last {
            Some(moment) => missed_run(self.next_after(moment), now),
            None => false,
        }
    }
}

/// White space at the end makes no difference to the number of words, and
/// other characters at the end, after white space, make one more.
proof fn lemma_zero_in_front(s: Seq<char>)
    ensures
        text::word_count("0 "@ + s) == text::word_count(s) + 1,
    decreases s.len(),
{
    reveal_strlit("0 ");
    let zero = "0 "@;
    let t = zero + s;
    assert(zero.len() == 2 && zero[0] == '0' && zero[1] == ' ');
    if s.len() == 0 {
        assert(t =~= zero);
        assert(zero.drop_last().drop_last() =~= Seq::<char>::empty());
        assert(text::word_count(zero.drop_last().drop_last()) == 0);
        assert(zero.drop_last().last() == '0');
        assert(text::word_count(zero.drop_last()) == 1);
        assert(zero.last() == ' ');
        assert(text::is_space(' '));
        assert(text::word_count(zero) == 1);
    } else {
        lemma_zero_in_front(s.drop_last());
        assert(t.drop_last() =~= zero + s.drop_last());
        assert(t.last() == s.last());
        if s.len() == 1 {
            assert(t[t.len() - 2] == ' ');
            assert(text::is_space(' '));
        } else {
            assert(t[t.len() - 2] == s[s.len() - 2]);
        }
    }
}

/// Trimming makes no text longer, and white space at the end makes it shorter.
proof fn lemma_trim_back(s: Seq<char>)
    ensures
        text::trim_back(s).len() <= s.len(),
        s.len() > 0 && text::is_space(s.last()) ==> text::trim_back(s).len() < s.len(),
    decreases s.len(),
{
    if s.len() > 0 && text::is_space(s.last()) {
        lemma_trim_back(s.drop_last());
    }
}

/// Trimming the front makes no text longer.
proof fn lemma_trim_front(s: Seq<char>)
    ensures
        text::trim_front(s).len() <= s.len(),
    decreases s.len(),
{
    if s.len() > 0 && text::is_space(s[0]) {
        lemma_trim_front(s.skip(1));
    }
}

/// Five fields mean what six fields with a zero in front mean: either both are
/// an expression or none is, and both have the same next run after every
/// moment, in every time zone.
pub proof fn five_and_six_fields_mean_the_same(expression: Seq<char>, after: i64, zone: Seq<u8>)
    requires
        text::word_count(expression) == 5,
    ensures
        ({
            let six = "0 "@ + expression;
            &&& text::word_count(six) == 6
            &&& with_seconds(expression) == with_seconds(six)
            &&& cron_error(with_seconds(expression)) == cron_error(with_seconds(six))
            &&& run_after(with_seconds(expression), after, zone) == run_after(
                with_seconds(six),
                after,
                zone,
            )
            &&& text::trimmed(expression) == expression ==> text::trimmed(six) == six
        }),
{
    lemma_zero_in_front(expression);
    let six = "0 "@ + expression;
    reveal_strlit("0 ");
    assert(six[0] == '0');
    if text::trimmed(expression) == expression {
        let front = text::trim_front(expression);
        lemma_trim_front(expression);
        lemma_trim_back(front);
        assert(expression.len() > 0);
        assert(front == expression);
        assert(six.last() == expression.last());
        assert(text::trim_front(six) == six);
    }
}

} // verus!
