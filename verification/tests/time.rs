use activity_mcp::time::{
    can_parse_since, duration_overflows, is_clear, now, parse_duration, parse_since, rfc3339, short,
    since_date, try_rfc3339, FIRST_MOMENT, LAST_MOMENT,
};
use chrono::{DateTime, Local, TimeZone, Utc};
use std::time::Duration;

#[test]
fn durations_are_parsed() {
    assert_eq!(parse_duration("90s"), Ok(Duration::from_secs(90)));
    assert_eq!(parse_duration("15m"), Ok(Duration::from_secs(900)));
    assert_eq!(parse_duration("2w"), Ok(Duration::from_secs(14 * 86_400)));
    assert!(parse_duration("15").is_err());
    assert!(parse_duration("m").is_err());
    assert!(parse_duration("3y").is_err());
}

#[test]
fn since_accepts_relative_and_absolute() {
    assert_eq!(parse_since("24h", 100_000), Ok(100_000 - 86_400));
    assert_eq!(parse_since("2026-09-01T09:00:00+00:00", 0), Ok(1_788_253_200));
    assert!(parse_since("2026-09-01", 0).is_ok());
    assert!(parse_since("вчера", 0).is_err());
}

#[test]
fn a_date_is_its_local_midnight() {
    let midnight = Local.with_ymd_and_hms(2026, 9, 1, 0, 0, 0).earliest().unwrap().timestamp();
    assert_eq!(parse_since(" 2026-09-01 ", 5), Ok(midnight));
    assert_eq!(since_date("2026-09-01", Some(7)), Ok(7));
    assert_eq!(since_date("2026-09-01", None), Err("нет местной полуночи для 2026-09-01".to_string()));
}

#[test]
fn what_is_wrong_with_a_start_is_told() {
    assert_eq!(
        parse_since("вчера", 0),
        Err("не разобрано «вчера»: ожидается 24h, 7d, 2026-09-01 или 2026-09-01T09:00:00+03:00".to_string())
    );
}

#[test]
fn every_unit_of_a_duration_counts() {
    assert_eq!(parse_duration("1h"), Ok(Duration::from_secs(3_600)));
    assert_eq!(parse_duration(" 7d "), Ok(Duration::from_secs(604_800)));
    assert_eq!(parse_duration("0s"), Ok(Duration::from_secs(0)));
    assert!(duration_overflows("18446744073709551615w"));
    assert!(!duration_overflows("18446744073709551615s"));
    assert!(!can_parse_since("9223372036854775807s", i64::MIN));
    assert!(can_parse_since("9223372036854775807s", 0));
}

#[test]
fn the_calendar_ends_where_it_is_said_to() {
    assert_eq!(DateTime::<Utc>::MIN_UTC.timestamp(), FIRST_MOMENT);
    assert_eq!(DateTime::<Utc>::MAX_UTC.timestamp(), LAST_MOMENT);
    assert!(Local.timestamp_opt(FIRST_MOMENT, 0).single().is_some());
    assert!(Local.timestamp_opt(LAST_MOMENT, 0).single().is_some());
    assert!(Local.timestamp_opt(FIRST_MOMENT - 1, 0).single().is_none());
    assert!(Local.timestamp_opt(LAST_MOMENT + 1, 0).single().is_none());
}

#[test]
fn moments_are_shown_on_the_local_clock() {
    let moment = Local.with_ymd_and_hms(2026, 9, 24, 18, 0, 0).single().unwrap();
    let text = rfc3339(moment.timestamp());
    assert!(text.starts_with("2026-09-24T18:00:00"), "{text}");
    assert_eq!(DateTime::parse_from_rfc3339(&text).unwrap().timestamp(), moment.timestamp());
    assert_eq!(short(moment.timestamp()), "24.09 18:00");
    // A moment without a calendar date is shown as the epoch.
    assert_eq!(rfc3339(i64::MAX), rfc3339(0));
    assert_eq!(short(i64::MIN), short(0));
}

#[test]
fn a_shown_moment_reads_back() {
    for t in [0, 1, 86_399, 1_788_253_200, 4_102_444_800, 253_402_128_000] {
        let offset = Local.timestamp_opt(t, 0).single().unwrap().offset().local_minus_utc();
        if offset % 60 == 0 {
            let text = rfc3339(t);
            assert_eq!(text.len(), 25, "{text}");
            for now in [i64::MIN, 0, i64::MAX] {
                assert!(can_parse_since(&text, now));
                assert_eq!(parse_since(&text, now), Ok(t));
            }
        }
    }
}

#[test]
fn a_short_text_has_eleven_characters() {
    for t in [0, 59, 86_399, 1_788_253_200, 253_402_128_000, i64::MAX, FIRST_MOMENT, LAST_MOMENT] {
        let text: Vec<char> = short(t).chars().collect();
        assert_eq!(text.len(), 11, "{t}");
        assert_eq!((text[2], text[5], text[8]), ('.', ' ', ':'), "{t}");
        let two = |i: usize| text[i].to_digit(10).unwrap() * 10 + text[i + 1].to_digit(10).unwrap();
        assert!((1..=31).contains(&two(0)) && (1..=12).contains(&two(3)), "{t}");
        let shown = if t == i64::MAX { 0 } else { t };
        let offset = Local.timestamp_opt(shown, 0).single().unwrap().offset().local_minus_utc() as i64;
        let second = (shown + offset).rem_euclid(86_400);
        assert_eq!((two(6) as i64, two(9) as i64), (second / 3_600, second % 3_600 / 60), "{t}");
    }
}

#[test]
fn a_moment_is_shown_where_the_local_calendar_has_it() {
    assert_eq!(try_rfc3339(7), Some(rfc3339(7)));
    assert_eq!(try_rfc3339(i64::MAX), Some(rfc3339(0)));
    let last = Local.timestamp_opt(LAST_MOMENT, 0).single().unwrap();
    assert_eq!(try_rfc3339(LAST_MOMENT).is_some(), last.offset().local_minus_utc() <= 0);
    let first = Local.timestamp_opt(FIRST_MOMENT, 0).single().unwrap();
    assert_eq!(try_rfc3339(FIRST_MOMENT).is_some(), first.offset().local_minus_utc() >= 0);
}

#[test]
fn the_edges_of_the_calendar_are_known() {
    assert!(is_clear(0));
    assert!(is_clear(i64::MAX));
    assert!(!is_clear(LAST_MOMENT));
    assert!(!is_clear(FIRST_MOMENT));
    assert!(is_clear(LAST_MOMENT - 86_399));
    assert!(is_clear(LAST_MOMENT + 1));
}

#[test]
fn the_clock_goes() {
    let before = Utc::now().timestamp();
    let shown = now();
    assert!(before <= shown && shown <= Utc::now().timestamp());
}
