//! Time: Unix seconds in the journal, local time in texts and schedules.

use crate::text;
use chrono::{DateTime, Datelike, FixedOffset, Local, NaiveDate, SecondsFormat, TimeZone, Utc};
use std::time::Duration;
use vstd::prelude::*;

verus! {

/// The first and the last second that has a calendar date.
pub const FIRST_MOMENT: i64 = -8_334_601_228_800;

pub const LAST_MOMENT: i64 = 8_210_266_876_799;

/// The day number of 1970-01-01, counted from 0001-01-01 as day one.
pub const EPOCH_DAY: i32 = 719_163;

/// Whether the second has a calendar date.
pub open spec fn in_calendar(moment: int) -> bool {
    FIRST_MOMENT <= moment <= LAST_MOMENT
}

/// Whether `offset` can be the distance of a local clock from UTC, in seconds.
pub open spec fn is_offset(offset: int) -> bool {
    -86_400 < offset < 86_400
}

/// The moment that texts show for a timestamp: the epoch for one without a
/// calendar date.
pub open spec fn shown(timestamp: i64) -> i64 {
    if in_calendar(timestamp as int) {
        timestamp
    } else {
        0
    }
}

/// Whether the calendar has a date for the moment on every local clock, or on
/// none.
pub open spec fn clear_of_edges(timestamp: i64) -> bool {
    in_calendar(timestamp as int) ==> in_calendar(timestamp - 86_399) && in_calendar(
        timestamp + 86_399,
    )
}

/// Whether the calendar has a date for the moment on every local clock, or on
/// none.
pub fn is_clear(timestamp: i64) -> (r: bool)
    ensures
        r == clear_of_edges(timestamp),
{
    timestamp < FIRST_MOMENT || LAST_MOMENT < timestamp || (FIRST_MOMENT + 86_399 <= timestamp
        && timestamp <= LAST_MOMENT - 86_399)
}

// --- the clock and the calendar ------------------------------------------

/// `Utc::now().timestamp()`: the Unix second that the machine's clock shows.
/// Which second that is depends on the machine; it has a calendar date.
#[verifier::external_body]
pub fn now() -> (r: i64)
    ensures
        in_calendar(r as int),
{
    Utc::now().timestamp()
}

/// The distance from UTC, in seconds, that `Local` gives a clock that keeps the
/// rules of a time zone, at a moment.
pub uninterp spec fn zone_offset(moment: i64, zone: Seq<u8>) -> i32;

/// `Local.timestamp_opt`: the distance of the local clock from UTC at a
/// moment. It depends on the moment and on the rules of the machine's time
/// zone, of which nothing is said. There is one at every moment with a calendar
/// date, and it is less than a day.
#[verifier::external_body]
fn local_offset(moment: i64) -> (r: Option<i32>)
    ensures
        r is Some <==> in_calendar(moment as int),
        r matches Some(offset) ==> is_offset(offset as int),
        r matches Some(offset) ==> exists|zone: Seq<u8>|
            offset == #[trigger] zone_offset(moment, zone),
{
    Local.timestamp_opt(moment, 0).single().map(|m| m.offset().local_minus_utc())
}

/// The moment that `Local.from_local_datetime(..).earliest()` gives for a date
/// and time of day on a clock that keeps the rules of a time zone; `wall` is
/// the second at which a UTC clock shows them.
pub uninterp spec fn zone_moment(wall: i64, zone: Seq<u8>) -> Option<i64>;

/// `Local.from_local_datetime(..).earliest()`: a moment at which the local
/// clock shows the date and time that a UTC clock shows at `wall`, the first
/// one that `chrono` gives where there are two. It depends on `wall` and on the
/// rules of the machine's time zone, of which nothing is said; there may be
/// none, and it is less than a day away.
#[verifier::external_body]
fn local_moment(wall: i64) -> (r: Option<i64>)
    requires
        in_calendar(wall as int),
    ensures
        exists|zone: Seq<u8>| r == #[trigger] zone_moment(wall, zone),
        r matches Some(moment) ==> in_calendar(moment as int) && is_offset(wall - moment),
{
    let shown = DateTime::from_timestamp(wall, 0).expect("in the calendar").naive_utc();
    Local.from_local_datetime(&shown).earliest().map(|m| m.timestamp())
}

/// What `DateTime::to_rfc3339_opts` prints at a moment for a clock that is
/// `offset` seconds ahead of UTC, in whole seconds and with a numeric offset.
pub uninterp spec fn rfc3339_text(moment: i64, offset: i32) -> Seq<char>;

/// The first and the last second from which every clock shows a year of four
/// digits, from 0001 to 9999.
pub const FIRST_SPELLED: i64 = -62_135_510_400;

pub const LAST_SPELLED: i64 = 253_402_214_400;

/// Whether RFC 3339 spells a moment exactly on a clock: with a year of four
/// digits and a distance from UTC of whole minutes.
pub open spec fn is_spelled(moment: i64, offset: i32) -> bool {
    FIRST_SPELLED <= moment <= LAST_SPELLED && offset % 60 == 0
}

/// Whether a text has the form of RFC 3339 with whole seconds and a numeric
/// distance from UTC, as far as its length, its year and its last digit go.
pub open spec fn is_spelling(text: Seq<char>) -> bool {
    &&& text.len() == 25
    &&& forall|i: int| 0 <= i < 4 ==> text::is_digit(#[trigger] text[i])
    &&& text[4] == '-'
    &&& text::is_digit(text[24])
}

/// `DateTime::<FixedOffset>::to_rfc3339_opts`: the RFC 3339 text of a moment
/// on a clock that is `offset` seconds ahead of UTC. It panics where that
/// clock shows no calendar date. Where the text spells the moment exactly, it
/// has the usual form, and `DateTime::parse_from_rfc3339` reads the moment back.
#[verifier::external_body]
fn print_rfc3339(moment: i64, offset: i32) -> (r: String)
    requires
        in_calendar(moment as int),
        is_offset(offset as int),
        in_calendar(moment + offset),
    ensures
        r@ == rfc3339_text(moment, offset),
        is_spelled(moment, offset) ==> is_spelling(r@) && rfc3339_moment(r@) == Some(moment),
{
    let zone = FixedOffset::east_opt(offset).expect("less than a day");
    let shown = zone.timestamp_opt(moment, 0).single().expect("in the calendar");
    shown.to_rfc3339_opts(SecondsFormat::Secs, false)
}

/// What `DateTime::format` prints at a moment for a clock that is `offset`
/// seconds ahead of UTC, by the given pattern.
pub uninterp spec fn format_text(moment: i64, offset: i32, pattern: Seq<char>) -> Seq<char>;

/// The number that two digits of a text spell, from index `i` on.
pub open spec fn two_digits(text: Seq<char>, i: int) -> int {
    (text[i] as int - '0' as int) * 10 + (text[i + 1] as int - '0' as int)
}

/// Whether a text is day and month, and hour and minute of the time of day at
/// which a UTC clock stands at `wall`: `24.09 18:00`.
pub open spec fn is_clock_text(text: Seq<char>, wall: int) -> bool {
    &&& text.len() == 11
    &&& text[2] == '.' && text[5] == ' ' && text[8] == ':'
    &&& text::is_digit(text[0]) && text::is_digit(text[1])
    &&& text::is_digit(text[3]) && text::is_digit(text[4])
    &&& text::is_digit(text[6]) && text::is_digit(text[7])
    &&& text::is_digit(text[9]) && text::is_digit(text[10])
    &&& 1 <= two_digits(text, 0) <= 31
    &&& 1 <= two_digits(text, 3) <= 12
    &&& two_digits(text, 6) == (wall % 86_400) / 3_600
    &&& two_digits(text, 9) == (wall % 3_600) / 60
}

/// `DateTime::<FixedOffset>::format`: the text of a moment by a `strftime`
/// pattern, on a clock that is `offset` seconds ahead of UTC. Only the
/// pattern of the digest is let through: printing panics on a faulty one. Its
/// specifiers stand for two digits each: the day from 01 to 31, the month from
/// 01 to 12, the hour and the minute that the clock shows.
#[verifier::external_body]
fn print_format(moment: i64, offset: i32, pattern: &str) -> (r: String)
    requires
        in_calendar(moment as int),
        is_offset(offset as int),
        pattern@ == "%d.%m %H:%M"@,
    ensures
        r@ == format_text(moment, offset, pattern@),
        is_clock_text(r@, moment + offset),
{
    let zone = FixedOffset::east_opt(offset).expect("less than a day");
    let shown = zone.timestamp_opt(moment, 0).single().expect("in the calendar");
    shown.format(pattern).to_string()
}

/// The moment that `DateTime::parse_from_rfc3339` reads in `text`.
pub uninterp spec fn rfc3339_moment(text: Seq<char>) -> Option<i64>;

/// `DateTime::parse_from_rfc3339`: the Unix second of an RFC 3339 text, or an
/// error, which depends on the text alone.
#[verifier::external_body]
fn parse_rfc3339(text: &str) -> (r: Option<i64>)
    ensures
        r == rfc3339_moment(text@),
{
    DateTime::parse_from_rfc3339(text).ok().map(|m| m.timestamp())
}

/// The date that `NaiveDate::parse_from_str` reads in `text` by `pattern`, as
/// the number of days from 0001-01-01, which is day one.
pub uninterp spec fn date_day(text: Seq<char>, pattern: Seq<char>) -> Option<i32>;

/// `NaiveDate::parse_from_str`: the date that the text gives by the pattern,
/// or an error, which depends on the two alone. Its midnight is a second of
/// the calendar.
#[verifier::external_body]
fn parse_date(text: &str, pattern: &str) -> (r: Option<i32>)
    ensures
        r == date_day(text@, pattern@),
        r matches Some(day) ==> in_calendar((day - EPOCH_DAY) * 86_400),
{
    NaiveDate::parse_from_str(text, pattern).ok().map(|date| date.num_days_from_ce())
}

// --- texts ---------------------------------------------------------------

/// The moment to show for a timestamp, and the local clock's distance from
/// UTC then.
fn local(timestamp: i64) -> (r: (i64, i32))
    ensures
        r.0 == shown(timestamp),
        is_offset(r.1 as int),
        exists|zone: Seq<u8>| r.1 == #[trigger] zone_offset(shown(timestamp), zone),
{
    match local_offset(timestamp) {
        Some(offset) => (timestamp, offset),
        None => match local_offset(0) {
            Some(offset) => (0, offset),
            None => (0, 0),
        },
    }
}

/// The RFC 3339 text of a timestamp on a clock that keeps the rules of a time
/// zone; none where that clock shows no calendar date.
pub open spec fn stamp_in(timestamp: i64, zone: Seq<u8>) -> Option<Seq<char>> {
    let moment = shown(timestamp);
    let offset = zone_offset(moment, zone);
    if in_calendar(moment + offset) {
        Some(rfc3339_text(moment, offset))
    } else {
        None
    }
}

/// Whether `stamp` is the RFC 3339 text of the timestamp on the clock of some
/// time zone, or none where that clock shows no calendar date.
pub open spec fn is_stamp(stamp: Option<Seq<char>>, timestamp: i64) -> bool {
    exists|zone: Seq<u8>| stamp == #[trigger] stamp_in(timestamp, zone)
}

/// Whether `text` shows the timestamp in RFC 3339 on the clock of some time
/// zone.
pub open spec fn is_rfc3339(text: Seq<char>, timestamp: i64) -> bool {
    is_stamp(Some(text), timestamp)
}

/// Whether a text means one moment, whatever the time is now.
pub open spec fn is_absolute(s: Seq<char>, moment: i64) -> bool {
    let t = text::trimmed(s);
    trimmed_seconds(t) is Err && rfc3339_moment(t) == Some(moment)
}

/// An RFC 3339 text of the usual form is no duration, and has no white space
/// around it.
proof fn lemma_spelling(s: Seq<char>)
    requires
        is_spelling(s),
    ensures
        text::trimmed(s) == s,
        trimmed_seconds(s) is Err,
{
    assert(text::is_digit(s[0]) && text::is_digit(s[1]) && text::is_digit(s[2]) && text::is_digit(
        s[3],
    ));
    assert(s.last() == s[24]);
    assert(text::trim_front(s) == s);
    reveal_with_fuel(digit_run, 6);
    assert(s.skip(1).skip(1).skip(1).skip(1)[0] == s[4]);
    assert(s.skip(1)[0] == s[1] && s.skip(1).skip(1)[0] == s[2] && s.skip(1).skip(1).skip(1)[0]
        == s[3]);
    assert(digit_run(s) == 4);
    assert(s.skip(4).len() == 21);
}

/// For JSON replies: RFC 3339 on the local clock. A text that spells its moment
/// exactly means that moment when it is read back as the start of a period.
pub fn rfc3339(timestamp: i64) -> (r: String)
    requires
        clear_of_edges(timestamp),
    ensures
        is_rfc3339(r@, timestamp),
        exists|zone: Seq<u8>|
            Some(r@) == #[trigger] stamp_in(timestamp, zone) && (in_calendar(timestamp as int)
                && is_spelled(timestamp, zone_offset(timestamp, zone)) ==> is_absolute(
                r@,
                timestamp,
            )),
{
    let (moment, offset) = local(timestamp);
    let r = print_rfc3339(moment, offset);
    proof {
        let zone = choose|zone: Seq<u8>| offset == #[trigger] zone_offset(shown(timestamp), zone);
        assert(Some(r@) == stamp_in(timestamp, zone));
        if is_spelled(moment, offset) {
            lemma_spelling(r@);
        }
    }
    r
}

/// RFC 3339 on the local clock; none where it shows no calendar date.
pub fn try_rfc3339(timestamp: i64) -> (r: Option<String>)
    ensures
        is_stamp(text::text_opt(r), timestamp),
        clear_of_edges(timestamp) ==> r is Some,
{
    let (moment, offset) = local(timestamp);
    let ghost zone = choose|zone: Seq<u8>|
        offset == #[trigger] zone_offset(shown(timestamp), zone);
    let wall: i64 = moment + offset as i64;
    if wall < FIRST_MOMENT || wall > LAST_MOMENT {
        assert(stamp_in(timestamp, zone) is None);
        None
    } else {
        let r = print_rfc3339(moment, offset);
        assert(Some(r@) == stamp_in(timestamp, zone));
        Some(r)
    }
}

/// For the digest's text: `24.09 18:00` on the local clock.
pub fn short(timestamp: i64) -> (r: String)
    ensures
        is_short(r@, timestamp),
{
    let (moment, offset) = local(timestamp);
    print_format(moment, offset, "%d.%m %H:%M")
}

/// Whether `text` shows day, month, hour and minute of the timestamp on the
/// clock of some time zone.
pub open spec fn is_short(text: Seq<char>, timestamp: i64) -> bool {
    exists|zone: Seq<u8>|
        text == format_text(
            shown(timestamp),
            #[trigger] zone_offset(shown(timestamp), zone),
            "%d.%m %H:%M"@,
        ) && is_clock_text(text, shown(timestamp) + zone_offset(shown(timestamp), zone))
}

// --- durations -----------------------------------------------------------

/// The length of a duration in nanoseconds.
pub uninterp spec fn duration_nanos(d: std::time::Duration) -> u128;

/// `Duration::from_secs` makes a duration of that many whole seconds.
pub assume_specification[ std::time::Duration::from_secs ](secs: u64) -> (d: Duration)
    ensures
        duration_nanos(d) == secs * 1_000_000_000,
;

/// `Duration::as_secs` gives the whole seconds of a duration.
pub assume_specification[ std::time::Duration::as_secs ](d: &Duration) -> (r: u64)
    ensures
        r == duration_nanos(*d) / 1_000_000_000,
;

/// How many digits `s` begins with.
pub open spec fn digit_run(s: Seq<char>) -> nat
    decreases s.len(),
{
    if s.len() > 0 && text::is_digit(s[0]) {
        1 + digit_run(s.skip(1))
    } else {
        0
    }
}

/// The seconds of a unit: second, minute, hour, day or week.
pub open spec fn unit_seconds(unit: Seq<char>) -> Option<nat> {
    if unit == seq!['s'] {
        Some(1)
    } else if unit == seq!['m'] {
        Some(60)
    } else if unit == seq!['h'] {
        Some(3_600)
    } else if unit == seq!['d'] {
        Some(86_400)
    } else if unit == seq!['w'] {
        Some(7 * 86_400)
    } else {
        None
    }
}

/// The complaint about a duration that is digits alone.
pub open spec fn no_unit(t: Seq<char>) -> Seq<char> {
    "у длительности «"@ + t + "» нет единицы: s, m, h, d или w"@
}

/// The complaint about a duration that does not begin with a number.
pub open spec fn no_number(t: Seq<char>) -> Seq<char> {
    "длительность «"@ + t + "» должна начинаться с числа"@
}

/// The complaint about a unit that is none of the five.
pub open spec fn unknown_unit(unit: Seq<char>, t: Seq<char>) -> Seq<char> {
    "неизвестная единица «"@ + unit + "» в «"@ + t + "»: s, m, h, d или w"@
}

/// The seconds that a duration like `90s`, `15m`, `6h`, `7d` or `2w` spells,
/// or what is wrong with it. The text is already trimmed.
pub open spec fn trimmed_seconds(t: Seq<char>) -> Result<nat, Seq<char>> {
    let n = digit_run(t) as int;
    let unit = t.skip(n);
    if n == t.len() {
        Err(no_unit(t))
    } else {
        match text::parsed_u64(t.take(n)) {
            None => Err(no_number(t)),
            Some(number) => match unit_seconds(unit) {
                None => Err(unknown_unit(unit, t)),
                Some(seconds) => Ok((number * seconds) as nat),
            },
        }
    }
}

/// The seconds that a duration spells, white space around it aside.
pub open spec fn duration_seconds(s: Seq<char>) -> Result<nat, Seq<char>> {
    trimmed_seconds(text::trimmed(s))
}

fn leading_digits(s: &[char]) -> (n: usize)
    ensures
        n == digit_run(s@),
        n <= s@.len(),
{
    let mut n: usize = 0;
    assert(s@.skip(0) =~= s@);
    while n < s.len() && s[n] >= '0' && s[n] <= '9'
        invariant
            n <= s@.len(),
            digit_run(s@) == n + digit_run(s@.skip(n as int)),
        decreases s@.len() - n,
    {
        assert(s@.skip(n as int).skip(1) =~= s@.skip(n + 1));
        n += 1;
    }
    n
}

fn seconds_of_unit(unit: &[char]) -> (r: Option<u64>)
    ensures
        r is Some <==> unit_seconds(unit@) is Some,
        r matches Some(n) ==> unit_seconds(unit@) == Some(n as nat),
        r matches Some(n) ==> n <= 604_800,
{
    if unit.len() != 1 {
        return None;
    }
    let c = unit[0];
    assert(unit@ =~= seq![c]);
    if c == 's' {
        Some(1)
    } else if c == 'm' {
        assert(seq!['m'][0] != seq!['s'][0]);
        Some(60)
    } else if c == 'h' {
        assert(seq!['h'][0] != seq!['s'][0] && seq!['h'][0] != seq!['m'][0]);
        Some(3_600)
    } else if c == 'd' {
        assert(seq!['d'][0] != seq!['s'][0] && seq!['d'][0] != seq!['m'][0] && seq!['d'][0]
            != seq!['h'][0]);
        Some(86_400)
    } else if c == 'w' {
        assert(seq!['w'][0] != seq!['s'][0] && seq!['w'][0] != seq!['m'][0] && seq!['w'][0]
            != seq!['h'][0] && seq!['w'][0] != seq!['d'][0]);
        Some(604_800)
    } else {
        assert(unit@[0] == c);
        None
    }
}

/// Reads a trimmed duration, of any length.
fn read_seconds(t: &[char]) -> (r: Result<u128, String>)
    ensures
        r is Ok <==> trimmed_seconds(t@) is Ok,
        r matches Ok(n) ==> trimmed_seconds(t@) == Ok::<nat, Seq<char>>(n as nat),
        r matches Err(e) ==> trimmed_seconds(t@) == Err::<nat, Seq<char>>(e@),
{
    let n = leading_digits(t);
    let whole = text::string_of(t);
    if n == t.len() {
        return Err(text::concat3("у длительности «", whole.as_str(), "» нет единицы: s, m, h, d или w"));
    }
    let number = &t[0..n];
    let unit = &t[n..t.len()];
    assert(number@ =~= t@.take(n as int));
    assert(unit@ =~= t@.skip(n as int));
    match text::parse_u64(number) {
        None => Err(
            text::concat3("длительность «", whole.as_str(), "» должна начинаться с числа"),
        ),
        Some(number) => match seconds_of_unit(unit) {
            None => {
                let mut e = text::concat3(
                    "неизвестная единица «",
                    text::string_of(unit).as_str(),
                    "» в «",
                );
                e.append(whole.as_str());
                e.append("»: s, m, h, d или w");
                Err(e)
            },
            Some(seconds) => {
                assert(number * seconds <= u64::MAX * 604_800) by (nonlinear_arith)
                    requires
                        0 <= number <= u64::MAX,
                        0 <= seconds <= 604_800,
                ;
                Ok(number as u128 * seconds as u128)
            },
        },
    }
}

/// Whether the text spells a duration of more seconds than 64 bits can hold.
pub fn duration_overflows(text: &str) -> (r: bool)
    ensures
        r <==> (duration_seconds(text@) matches Ok(n) && n > u64::MAX),
{
    let chars = text::chars_of(text);
    match read_seconds(text::trim(chars.as_slice())) {
        Ok(n) => n > u64::MAX as u128,
        Err(_) => false,
    }
}

/// A duration like `90s`, `15m`, `6h`, `7d` or `2w`.
pub fn parse_duration(text: &str) -> (r: Result<Duration, String>)
    requires
        duration_seconds(text@) matches Ok(n) ==> n <= u64::MAX,
    ensures
        r is Ok <==> duration_seconds(text@) is Ok,
        r matches Ok(d) ==> duration_nanos(d) == duration_seconds(text@)->Ok_0 * 1_000_000_000,
        r matches Err(e) ==> duration_seconds(text@) == Err::<nat, Seq<char>>(e@),
{
    let chars = text::chars_of(text);
    match read_seconds(text::trim(chars.as_slice())) {
        Ok(n) => Ok(Duration::from_secs(n as u64)),
        Err(e) => Err(e),
    }
}

/// A number of seconds read as a signed number of 64 bits: the two's
/// complement of the same bits.
pub open spec fn signed(n: nat) -> int {
    if n <= i64::MAX {
        n as int
    } else {
        n - 0x1_0000_0000_0000_0000
    }
}

/// The same bits as a signed number.
pub(crate) fn to_signed(n: u64) -> (r: i64)
    ensures
        r == signed(n as nat),
{
    if n <= i64::MAX as u64 {
        n as i64
    } else {
        -((u64::MAX - n) as i64) - 1
    }
}

proof fn lemma_digit_run(digits: Seq<char>, unit: char)
    requires
        text::all_digits(digits),
        !text::is_digit(unit),
    ensures
        digit_run(digits.push(unit)) == digits.len(),
    decreases digits.len(),
{
    let s = digits.push(unit);
    if digits.len() > 0 {
        let rest = digits.skip(1);
        assert forall|i: int| 0 <= i < rest.len() implies text::is_digit(#[trigger] rest[i]) by {
            assert(rest[i] == digits[i + 1]);
        }
        lemma_digit_run(rest, unit);
        assert(s.skip(1) =~= rest.push(unit));
        assert(s[0] == digits[0]);
    } else {
        assert(s[0] == unit);
    }
}

/// A duration that is spelled as a number and a unit is that many units.
pub proof fn a_spelled_duration_is_read(n: u64, unit: char)
    requires
        unit_seconds(seq![unit]) is Some,
    ensures
        duration_seconds(text::decimal(n as nat).push(unit)) == Ok::<nat, Seq<char>>(
            (n * unit_seconds(seq![unit])->Some_0) as nat,
        ),
{
    let digits = text::decimal(n as nat);
    let t = digits.push(unit);
    text::decimal_reads_back(n as nat);
    assert(seq![unit][0] == unit);
    assert(seq!['s'][0] == 's' && seq!['m'][0] == 'm' && seq!['h'][0] == 'h' && seq!['d'][0] == 'd'
        && seq!['w'][0] == 'w');
    assert(unit == 's' || unit == 'm' || unit == 'h' || unit == 'd' || unit == 'w');
    lemma_digit_run(digits, unit);
    assert(t[0] == digits[0]);
    assert(text::is_digit(digits[0]));
    assert(text::trim_front(t) == t);
    assert(t.last() == unit);
    assert(text::trim_back(t) == t);
    assert(t.take(digits.len() as int) =~= digits);
    assert(t.skip(digits.len() as int) =~= seq![unit]);
}

// --- the start of a period -----------------------------------------------

/// The complaint about a date without a local midnight.
pub open spec fn no_midnight(t: Seq<char>) -> Seq<char> {
    "нет местной полуночи для "@ + t
}

/// The complaint about a start that is none of the three forms.
pub open spec fn not_a_start(t: Seq<char>) -> Seq<char> {
    "не разобрано «"@ + t
        + "»: ожидается 24h, 7d, 2026-09-01 или 2026-09-01T09:00:00+03:00"@
}

/// Whether going back from `now` by the duration that `s` spells, if it
/// spells one, stays within 64 bits.
pub open spec fn since_fits(s: Seq<char>, now: i64) -> bool {
    duration_seconds(s) matches Ok(n) ==> n <= u64::MAX && i64::MIN <= now - signed(n) <= i64::MAX
}

/// Tests whether [`parse_since`] can be asked.
pub fn can_parse_since(text: &str, now: i64) -> (r: bool)
    ensures
        r == since_fits(text@, now),
{
    let chars = text::chars_of(text);
    match read_seconds(text::trim(chars.as_slice())) {
        Ok(n) => {
            if n > u64::MAX as u128 {
                return false;
            }
            let start: i128 = now as i128 - to_signed(n as u64) as i128;
            i64::MIN as i128 <= start && start <= i64::MAX as i128
        },
        Err(_) => true,
    }
}

/// The start of the period for a date, given the moment of its local midnight.
pub open spec fn start_at(date: Seq<char>, midnight: Option<i64>) -> Result<i64, Seq<char>> {
    match midnight {
        Some(moment) => Ok(moment),
        None => Err(no_midnight(date)),
    }
}

/// The start of the period for a date, given the moment of its local
/// midnight.
pub fn since_date(date: &str, midnight: Option<i64>) -> (r: Result<i64, String>)
    ensures
        moment_view(r) == start_at(date@, midnight),
{
    match midnight {
        Some(m) => Ok(m),
        None => Err(text::concat2("нет местной полуночи для ", date)),
    }
}

/// Whether the start of the period that `s` gives is `start`: relative (`24h`,
/// `7d`: that long before `now`), a date `YYYY-MM-DD` (its local midnight) or
/// RFC 3339. The time zone decides which moment a local midnight is, and
/// whether there is one.
pub open spec fn is_start(s: Seq<char>, now: i64, start: Result<i64, Seq<char>>) -> bool {
    let t = text::trimmed(s);
    match trimmed_seconds(t) {
        Ok(n) => start matches Ok(moment) && moment == now - signed(n),
        Err(_) => match rfc3339_moment(t) {
            Some(moment) => start == Ok::<i64, Seq<char>>(moment),
            None => match date_day(t, "%Y-%m-%d"@) {
                Some(day) => {
                    let wall = ((day - EPOCH_DAY) * 86_400) as i64;
                    &&& exists|zone: Seq<u8>| start == start_at(t, #[trigger] zone_moment(wall, zone))
                    &&& start matches Ok(moment) ==> is_offset(wall - moment)
                },
                None => start == Err::<i64, Seq<char>>(not_a_start(t)),
            },
        },
    }
}

/// What a result with a moment holds.
pub open spec fn moment_view(r: Result<i64, String>) -> Result<i64, Seq<char>> {
    match r {
        Ok(moment) => Ok(moment),
        Err(e) => Err(e@),
    }
}

/// A text that means one moment is read as that moment at any time.
pub proof fn an_absolute_start_does_not_depend_on_now(
    s: Seq<char>,
    moment: i64,
    now: i64,
    start: Result<i64, Seq<char>>,
)
    requires
        is_absolute(s, moment),
    ensures
        since_fits(s, now),
        is_start(s, now, start) <==> start == Ok::<i64, Seq<char>>(moment),
{
}

/// The start of a period: relative (`24h`, `7d`: that long before `now`), a
/// date `YYYY-MM-DD` (its local midnight) or RFC 3339.
///
/// The time zone decides which moment a local midnight is, and whether there
/// is one: see [`since_date`].
pub fn parse_since(text: &str, now: i64) -> (r: Result<i64, String>)
    requires
        since_fits(text@, now),
    ensures
        is_start(text@, now, moment_view(r)),
{
    let chars = text::chars_of(text);
    let t = text::trim(chars.as_slice());
    match read_seconds(t) {
        Ok(n) => return Ok(now - to_signed(n as u64)),
        Err(_) => {},
    }
    let t = text::string_of(t);
    match parse_rfc3339(t.as_str()) {
        Some(moment) => return Ok(moment),
        None => {},
    }
    match parse_date(t.as_str(), "%Y-%m-%d") {
        Some(day) => {
            let wall: i64 = (day as i64 - EPOCH_DAY as i64) * 86_400;
            since_date(t.as_str(), local_moment(wall))
        },
        None => Err(
            text::concat3(
                "не разобрано «",
                t.as_str(),
                "»: ожидается 24h, 7d, 2026-09-01 или 2026-09-01T09:00:00+03:00",
            ),
        ),
    }
}

} // verus!
