//! Durations, starts of periods, and the schedule.

use crate::schedule;
use crate::schedule::Run;
use crate::text;
use crate::text_laws;
use crate::time;
use vstd::prelude::*;

verus! {

// --- durations -----------------------------------------------------------

/// A number, spelled, with a unit behind it.
pub open spec fn spelled(n: nat, unit: char) -> Seq<char> {
    text::decimal(n).push(unit)
}

/// Seconds are seconds, and sixty of them are a minute; sixty minutes are an
/// hour, twenty-four hours a day and seven days a week.
pub proof fn units_make_up_each_other(n: nat)
    requires
        60 * n <= u64::MAX,
    ensures
        time::duration_seconds(spelled(n, 's')) == Ok::<nat, Seq<char>>(n),
        time::duration_seconds(spelled(n, 'm')) == time::duration_seconds(spelled(60 * n, 's')),
        time::duration_seconds(spelled(n, 'h')) == time::duration_seconds(spelled(60 * n, 'm')),
        time::duration_seconds(spelled(n, 'd')) == time::duration_seconds(spelled(24 * n, 'h')),
        time::duration_seconds(spelled(n, 'w')) == time::duration_seconds(spelled(7 * n, 'd')),
{
    lemma_read(n, 's', 1);
    lemma_read(n, 'm', 60);
    lemma_read(n, 'h', 3_600);
    lemma_read(n, 'd', 86_400);
    lemma_read(n, 'w', 604_800);
    lemma_read(60 * n, 's', 1);
    lemma_read(60 * n, 'm', 60);
    lemma_read(24 * n, 'h', 3_600);
    lemma_read(7 * n, 'd', 86_400);
}

proof fn lemma_units()
    ensures
        time::unit_seconds(seq!['s']) == Some(1nat),
        time::unit_seconds(seq!['m']) == Some(60nat),
        time::unit_seconds(seq!['h']) == Some(3_600nat),
        time::unit_seconds(seq!['d']) == Some(86_400nat),
        time::unit_seconds(seq!['w']) == Some(604_800nat),
{
    assert(seq!['s'][0] == 's' && seq!['m'][0] == 'm' && seq!['h'][0] == 'h' && seq!['d'][0] == 'd'
        && seq!['w'][0] == 'w');
}

proof fn lemma_read(n: nat, unit: char, seconds: nat)
    requires
        n <= u64::MAX,
        (unit == 's' && seconds == 1) || (unit == 'm' && seconds == 60) || (unit == 'h' && seconds
            == 3_600) || (unit == 'd' && seconds == 86_400) || (unit == 'w' && seconds == 604_800),
    ensures
        time::duration_seconds(spelled(n, unit)) == Ok::<nat, Seq<char>>(n * seconds),
{
    lemma_units();
    assert(time::unit_seconds(seq![unit]) == Some(seconds));
    time::a_spelled_duration_is_read(n as u64, unit);
    assert((n as u64) * seconds == n * seconds);
    assert(n * seconds >= 0) by (nonlinear_arith)
        requires
            n >= 0,
            seconds >= 0,
    ;
}

proof fn lemma_digit_run(s: Seq<char>)
    ensures
        time::digit_run(s) <= s.len(),
        forall|i: int| 0 <= i < time::digit_run(s) ==> text::is_digit(#[trigger] s[i]),
        time::digit_run(s) < s.len() ==> !text::is_digit(s[time::digit_run(s) as int]),
    decreases s.len(),
{
    if s.len() > 0 && text::is_digit(s[0]) {
        let rest = s.skip(1);
        lemma_digit_run(rest);
        assert forall|i: int| 0 <= i < time::digit_run(s) implies text::is_digit(#[trigger] s[i]) by {
            if i > 0 {
                assert(rest[i - 1] == s[i]);
            }
        }
        if time::digit_run(s) < s.len() {
            assert(rest[time::digit_run(rest) as int] == s[time::digit_run(s) as int]);
        }
    }
}

/// Whether a text is digits, at least one, and one of the letters of the
/// units.
pub open spec fn is_spelled_out(t: Seq<char>) -> bool {
    &&& t.len() >= 2
    &&& forall|i: int| 0 <= i < t.len() - 1 ==> '0' <= #[trigger] t[i] <= '9'
    &&& t.last() == 's' || t.last() == 'm' || t.last() == 'h' || t.last() == 'd' || t.last() == 'w'
}

/// Only digits with the letter of a unit behind them are a duration.
pub proof fn nothing_else_is_a_duration(s: Seq<char>)
    requires
        time::duration_seconds(s) is Ok,
    ensures
        is_spelled_out(text::trimmed(s)),
{
    let t = text::trimmed(s);
    let n = time::digit_run(t) as int;
    lemma_digit_run(t);
    let unit = t.skip(n);
    assert(unit.len() == 1);
    assert(unit[0] == t[n]);
    assert(seq!['s'][0] == 's' && seq!['m'][0] == 'm' && seq!['h'][0] == 'h' && seq!['d'][0] == 'd'
        && seq!['w'][0] == 'w');
    assert(n == t.len() - 1);
    assert(text::parsed_u64(t.take(n)) is Some);
    if n == 0 {
        assert(t.take(n) =~= Seq::<char>::empty());
    }
    assert forall|i: int| 0 <= i < t.len() - 1 implies '0' <= #[trigger] t[i] <= '9' by {
        assert(text::is_digit(t[i]));
    }
}

/// A complaint about a duration names it, and a unit that is unknown.
pub proof fn a_complaint_names_the_duration(s: Seq<char>)
    requires
        time::duration_seconds(s) is Err,
    ensures
        text_laws::occurs(text::trimmed(s), time::duration_seconds(s)->Err_0),
{
    let t = text::trimmed(s);
    let n = time::digit_run(t) as int;
    let unit = t.skip(n);
    if n == t.len() {
        text_laws::lemma_occurs(
            "у длительности «"@,
            t,
            "» нет единицы: s, m, h, d или w"@,
        );
    } else if text::parsed_u64(t.take(n)) is None {
        text_laws::lemma_occurs(
            "длительность «"@,
            t,
            "» должна начинаться с числа"@,
        );
    } else {
        text_laws::lemma_occurs(
            "неизвестная единица «"@ + unit + "» в «"@,
            t,
            "»: s, m, h, d или w"@,
        );
    }
}

/// Whether a start is a moment.
pub open spec fn is_moment(start: Result<i64, Seq<char>>, moment: int) -> bool {
    start matches Ok(m) && m == moment
}

/// A start that is spelled as a duration lies that long back.
pub proof fn a_relative_start_lies_back(n: nat, now: i64, start: Result<i64, Seq<char>>)
    requires
        604_800 * n <= i64::MAX,
    ensures
        time::is_start(spelled(n, 's'), now, start) ==> is_moment(start, now - n),
        time::is_start(spelled(n, 'm'), now, start) ==> is_moment(start, now - 60 * n),
        time::is_start(spelled(n, 'h'), now, start) ==> is_moment(start, now - 3_600 * n),
        time::is_start(spelled(n, 'd'), now, start) ==> is_moment(start, now - 86_400 * n),
        time::is_start(spelled(n, 'w'), now, start) ==> is_moment(start, now - 604_800 * n),
{
    lemma_read(n, 's', 1);
    lemma_read(n, 'm', 60);
    lemma_read(n, 'h', 3_600);
    lemma_read(n, 'd', 86_400);
    lemma_read(n, 'w', 604_800);
}

/// The date form: its start is a midnight on a local clock, which differs from
/// that of the same date in UTC by the distance of the clock, or there is
/// none.
pub proof fn the_start_of_a_date_is_near_its_midnight(
    s: Seq<char>,
    now: i64,
    start: Result<i64, Seq<char>>,
)
    requires
        time::is_start(s, now, start),
        time::duration_seconds(s) is Err,
        time::rfc3339_moment(text::trimmed(s)) is None,
        time::date_day(text::trimmed(s), "%Y-%m-%d"@) is Some,
    ensures
        match start {
            Ok(moment) => {
                let wall = ((time::date_day(text::trimmed(s), "%Y-%m-%d"@)->Some_0 - time::EPOCH_DAY)
                    * (24 * 60 * 60)) as i64;
                time::is_offset(wall - moment)
            },
            Err(e) => text_laws::occurs(text::trimmed(s), e),
        },
{
    let t = text::trimmed(s);
    if start is Err {
        text_laws::lemma_occurs("нет местной полуночи для "@, t, seq![]);
        assert("нет местной полуночи для "@ + t + seq![] =~= time::no_midnight(t));
    }
}

/// What is neither a duration nor a moment nor a date is refused, and named.
pub proof fn what_is_no_start_is_refused(s: Seq<char>, now: i64, start: Result<i64, Seq<char>>)
    requires
        time::is_start(s, now, start),
        time::duration_seconds(s) is Err,
        time::rfc3339_moment(text::trimmed(s)) is None,
        time::date_day(text::trimmed(s), "%Y-%m-%d"@) is None,
    ensures
        start matches Err(e) && text_laws::occurs(text::trimmed(s), e),
{
    text_laws::lemma_occurs(
        "не разобрано «"@,
        text::trimmed(s),
        "»: ожидается 24h, 7d, 2026-09-01 или 2026-09-01T09:00:00+03:00"@,
    );
}

// --- the schedule --------------------------------------------------------

/// An expression with another number of fields than five stays as it is, and
/// one of five gets one field more, which stands in front.
pub proof fn seconds_are_put_in_front(expression: Seq<char>)
    ensures
        text::word_count(expression) != 5 ==> schedule::with_seconds(expression) == expression,
        text::word_count(expression) == 5 ==> text::word_count(schedule::with_seconds(expression))
            == 6 && schedule::with_seconds(expression).len() == expression.len() + 2
            && schedule::with_seconds(expression)[0] == '0' && schedule::with_seconds(
            expression,
        ).skip(2) == expression,
{
    if text::word_count(expression) == 5 {
        schedule::five_and_six_fields_mean_the_same(expression, 0, seq![]);
        reveal_strlit("0 ");
        assert(("0 "@ + expression).skip(2) =~= expression);
    }
}

/// The next run is one that the schedule comes to, after the moment; there is
/// one if there is any such run. Of two at which the clock shows the same it
/// is the nearer; otherwise the first comes first.
pub proof fn the_next_run_is_the_nearest(first: Option<Run>, second: Option<Run>, after: i64)
    ensures
        schedule::first_after(first, second, after) is None <==> (first matches Some(a) ==> a.moment
            <= after) && (second matches Some(b) ==> b.moment <= after),
        schedule::first_after(first, second, after) matches Some(next) ==> after < next && ((
        first matches Some(a) && a.moment == next) || (second matches Some(b) && b.moment == next)),
        first is Some && second is Some && first->Some_0.moment > after && second->Some_0.moment
            > after && first->Some_0.moment + first->Some_0.offset == second->Some_0.moment
            + second->Some_0.offset ==> (schedule::first_after(first, second, after) matches Some(
            next,
        ) && next <= first->Some_0.moment && next <= second->Some_0.moment),
        first matches Some(a) && a.moment > after && !(second matches Some(b) && a.moment + a.offset
            == b.moment + b.offset) ==> schedule::first_after(first, second, after) == Some(
            first->Some_0.moment,
        ),
{
}

/// A run is missed from its moment on, for good, and not before; without a
/// run none is missed.
pub proof fn a_missed_run_stays_missed(next: Option<i64>, now: i64, later: i64)
    requires
        now <= later,
    ensures
        schedule::is_missed(next, now) ==> schedule::is_missed(next, later),
        schedule::is_missed(Some(now), later),
        now < later ==> !schedule::is_missed(Some(later), now),
        !schedule::is_missed(None, now),
{
}

/// What is said of a bad expression names it and the error.
pub proof fn a_bad_schedule_is_named(expression: Seq<char>, error: Seq<char>)
    ensures
        text_laws::occurs(expression, schedule::bad_schedule(expression, error)),
        text_laws::occurs(error, schedule::bad_schedule(expression, error)),
{
    let head = "неверное расписание «"@;
    text_laws::lemma_occurs(head, expression, "»: "@ + error);
    assert(head + expression + ("»: "@ + error) =~= schedule::bad_schedule(expression, error));
    text_laws::lemma_occurs(head + expression + "»: "@, error, seq![]);
    assert(head + expression + "»: "@ + error + seq![] =~= schedule::bad_schedule(
        expression,
        error,
    ));
}

// --- moments -------------------------------------------------------------

/// A moment is clear of the edges of the calendar if every local clock shows a
/// date for it, or if it has none at all; then what is shown instead is the
/// epoch.
pub proof fn a_clear_moment_has_a_date_on_every_clock(timestamp: i64)
    ensures
        time::in_calendar(timestamp as int) ==> (time::clear_of_edges(timestamp) <==> forall|
            offset: int,
        | #[trigger] time::is_offset(offset) ==> time::in_calendar(timestamp + offset)),
        !time::in_calendar(timestamp as int) ==> time::clear_of_edges(timestamp) && time::shown(
            timestamp,
        ) == 0,
        time::in_calendar(timestamp as int) ==> time::shown(timestamp) == timestamp,
{
    if time::in_calendar(timestamp as int) {
        assert(time::is_offset(86_399) && time::is_offset(-86_399));
        if time::clear_of_edges(timestamp) {
            assert forall|offset: int| #[trigger] time::is_offset(offset) implies time::in_calendar(
                timestamp + offset,
            ) by {}
        }
    }
}

/// A number of 64 bits that is read as a signed one keeps its bits.
pub proof fn the_same_bits_are_read(n: u64)
    ensures
        i64::MIN <= time::signed(n as nat) <= i64::MAX,
        time::signed(n as nat) == n || time::signed(n as nat) + 0x1_0000_0000_0000_0000 == n,
        n <= i64::MAX ==> time::signed(n as nat) == n,
{
}

} // verus!
