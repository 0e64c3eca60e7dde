use activity_mcp::schedule::{missed_run, next_of, Run, Schedule};
use activity_mcp::time::LAST_MOMENT;
use chrono::{Local, TimeZone};

fn at(hour: u32, minute: u32) -> i64 {
    Local
        .with_ymd_and_hms(2026, 9, 24, hour, minute, 0)
        .single()
        .unwrap()
        .timestamp()
}

#[test]
fn five_and_six_fields_mean_the_same() {
    let five = Schedule::parse("0 9,18 * * *").unwrap();
    let six = Schedule::parse("0 0 9,18 * * *").unwrap();
    assert_eq!(five.next_after(at(10, 0)), Some(at(18, 0)));
    assert_eq!(six.next_after(at(10, 0)), Some(at(18, 0)));
    assert!(Schedule::parse("каждый час").is_err());
}

#[test]
fn missed_run_is_detected() {
    let schedule = Schedule::parse("0 9,18 * * *").unwrap();
    // The last digest was at 9:00, now it is 19:00: the run at 18:00 was missed.
    assert!(schedule.missed(Some(at(9, 0)), at(19, 0)));
    assert!(!schedule.missed(Some(at(9, 0)), at(17, 59)));
    assert!(!schedule.missed(None, at(19, 0)));
}

#[test]
fn a_run_is_strictly_after() {
    let schedule = Schedule::parse("  0 9,18 * * *\n").unwrap();
    assert_eq!(schedule.expression(), "0 9,18 * * *");
    assert_eq!(schedule.next_after(at(9, 0)), Some(at(18, 0)));
    assert_eq!(schedule.next_after(at(9, 0) - 1), Some(at(9, 0)));
    assert!(schedule.missed(Some(at(9, 0)), at(18, 0)));
}

#[test]
fn a_bad_schedule_is_told() {
    let err = Schedule::parse(" каждый час ").unwrap_err();
    assert!(err.starts_with("неверное расписание «каждый час»: "), "{err}");
    assert!(err.len() > "неверное расписание «каждый час»: ".len());
    assert!(Schedule::parse("").is_err());
}

#[test]
fn a_schedule_ends() {
    let schedule = Schedule::parse("0 0 0 1 1 * 2020").unwrap();
    assert_eq!(schedule.next_after(at(9, 0)), None);
    assert!(!schedule.missed(Some(at(9, 0)), i64::MAX));
    let hourly = Schedule::parse("0 * * * *").unwrap();
    assert_eq!(hourly.next_after(LAST_MOMENT + 1), None);
    assert_eq!(hourly.next_after(i64::MIN), None);
    assert_eq!(hourly.next_after(LAST_MOMENT - 1), None);
}

fn run(moment: i64, offset: i32) -> Option<Run> {
    Some(Run { moment, offset })
}

#[test]
fn the_first_moment_after_counts() {
    assert_eq!(next_of(run(5, 0), run(9, 0), 5), Some(9));
    assert_eq!(next_of(run(6, 0), run(9, 0), 5), Some(6));
    assert_eq!(next_of(run(3, 0), None, 5), None);
    assert_eq!(next_of(None, run(100, 0), 50), Some(100));
    assert_eq!(next_of(None, run(50, 0), 50), None);
    assert_eq!(next_of(None, None, 5), None);
    assert!(missed_run(Some(5), 5));
    assert!(!missed_run(Some(6), 5));
    assert!(!missed_run(None, 5));
}

#[test]
fn a_clock_that_is_set_back_shows_a_time_twice() {
    // Set back by an hour at 3600: half past comes at 1800 and at 5400.
    assert_eq!(next_of(run(5400, 3600), run(1800, 7200), 0), Some(1800));
    assert_eq!(next_of(run(5400, 3600), run(1800, 7200), 1800), Some(5400));
    assert_eq!(next_of(run(1800, 7200), run(5400, 3600), 0), Some(1800));
    assert_eq!(next_of(run(1800, 7200), run(5400, 3600), 1800), Some(5400));
    assert_eq!(next_of(run(5400, 3600), run(1800, 7200), 5400), None);
    // The time at which it is set back is shown once, an hour later.
    assert_eq!(next_of(run(7200, 3600), run(3600, 3600), 0), Some(7200));
    assert_eq!(next_of(run(7200, 3600), run(3600, 3600), 3600), Some(7200));
}

#[test]
fn a_copy_runs_like_its_schedule() {
    let schedule = Schedule::parse(" 0 9,18 * * * ").unwrap();
    let copy = schedule.clone();
    assert_eq!(copy.expression(), "0 9,18 * * *");
    assert_eq!(copy.next_after(at(10, 0)), Some(at(18, 0)));
    assert_eq!(copy.next_after(at(18, 0)), schedule.next_after(at(18, 0)));
}

#[test]
fn five_fields_run_like_six_with_a_zero() {
    for expression in ["0 9,18 * * *", "*/15 * * * *", "30 2 1 * Mon"] {
        let five = Schedule::parse(expression).unwrap();
        let six = Schedule::parse(&format!("0 {expression}")).unwrap();
        for t in [0, at(9, 0), at(18, 0) - 1, at(23, 59), LAST_MOMENT - 1] {
            assert_eq!(five.next_after(t), six.next_after(t), "{expression} {t}");
        }
    }
}
