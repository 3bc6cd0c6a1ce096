use chrono::{Datelike, Local, NaiveDate, Timelike};
use noter::{is_note_due, Note, TimeOfDay, Timestamp};

const NINE_ON_NEW_YEAR: i64 = 1_704_099_600;

fn at(text: &str) -> Timestamp {
    Timestamp::parse(text).unwrap()
}

#[test]
fn parse_counts_seconds_from_1970() {
    assert_eq!(at("1970-01-01 00:00:00").seconds, 0);
    assert_eq!(at("1970-01-01 00:00:01").seconds, 1);
    assert_eq!(at("1969-12-31 23:59:59").seconds, -1);
    assert_eq!(at("2024-01-01 09:00:00").seconds, NINE_ON_NEW_YEAR);
    assert_eq!(at("2024-02-29 23:59:59").seconds, 1_709_251_199);
}

#[test]
fn to_text_writes_date_and_time() {
    assert_eq!(
        Timestamp { seconds: NINE_ON_NEW_YEAR }.to_text(),
        Some("2024-01-01 09:00:00".to_string())
    );
    assert_eq!(Timestamp { seconds: 0 }.to_text(), Some("1970-01-01 00:00:00".to_string()));
    assert_eq!(Timestamp { seconds: -1 }.to_text(), Some("1969-12-31 23:59:59".to_string()));
}

#[test]
fn text_and_timestamp_undo_each_other() {
    for seconds in [0i64, 1, -1, 59, 86_399, 86_400, NINE_ON_NEW_YEAR, 253_402_300_799, -62_167_219_200] {
        let text = Timestamp { seconds }.to_text().unwrap();
        assert_eq!(Timestamp::parse(&text), Some(Timestamp { seconds }));
    }
}

#[test]
fn parse_accepts_only_the_canonical_form() {
    assert_eq!(Timestamp::parse("2024-1-1 09:00:00"), None);
    assert_eq!(Timestamp::parse("2024-01-01 9:00:00"), None);
    assert_eq!(Timestamp::parse("2024-01-01  09:00:00"), None);
    assert_eq!(Timestamp::parse(" 2024-01-01 09:00:00"), None);
    assert_eq!(Timestamp::parse("2024-01-01 09:00:00 "), None);
    assert_eq!(Timestamp::parse("2024-01-01T09:00:00"), None);
    assert_eq!(Timestamp::parse("2024-01-01 09:00"), None);
    assert_eq!(Timestamp::parse("2024-01-01 09:00:00.5"), None);
    assert_eq!(Timestamp::parse(""), None);
    assert_eq!(Timestamp::parse("tomorrow"), None);
}

#[test]
fn parse_rejects_what_no_calendar_shows() {
    assert_eq!(Timestamp::parse("2024-13-01 09:00:00"), None);
    assert_eq!(Timestamp::parse("2023-02-29 09:00:00"), None);
    assert_eq!(Timestamp::parse("2024-01-01 24:00:00"), None);
    assert_eq!(Timestamp::parse("2024-01-01 09:60:00"), None);
    assert_eq!(Timestamp::parse("2024-01-01 09:00:60"), None);
}

#[test]
fn years_beyond_four_digits_carry_a_sign() {
    let far = Timestamp { seconds: 253_402_300_800 };
    assert_eq!(far.to_text(), Some("+10000-01-01 00:00:00".to_string()));
    assert_eq!(Timestamp::parse("+10000-01-01 00:00:00"), Some(far));
    assert_eq!(Timestamp::parse("10000-01-01 00:00:00"), None);
}

#[test]
fn timestamps_out_of_range_have_no_text() {
    assert_eq!(Timestamp { seconds: i64::MAX }.to_text(), None);
    assert_eq!(Timestamp { seconds: i64::MIN }.to_text(), None);
}

#[test]
fn from_day_and_second_agrees_with_the_calendar() {
    assert_eq!(Timestamp::from_day_and_second(719_163, 0).seconds, 0);
    assert_eq!(Timestamp::from_day_and_second(719_162, 86_399).seconds, -1);
    let day = NaiveDate::from_ymd_opt(2024, 1, 1).unwrap().num_days_from_ce();
    assert_eq!(Timestamp::from_day_and_second(day, 9 * 3600).seconds, NINE_ON_NEW_YEAR);
    let moment = NaiveDate::from_ymd_opt(1815, 6, 18).unwrap().and_hms_opt(11, 30, 7).unwrap();
    assert_eq!(
        Timestamp::from_day_and_second(
            moment.num_days_from_ce(),
            moment.num_seconds_from_midnight()
        )
        .seconds,
        moment.and_utc().timestamp()
    );
    assert_eq!(Timestamp::from_day_and_second(i32::MAX, u32::MAX).seconds, 185_484_746_384_895);
    assert_eq!(Timestamp::from_day_and_second(i32::MIN, 0).seconds, -185_604_722_870_400);
}

#[test]
fn now_follows_the_local_clock() {
    let before = Local::now().naive_local().and_utc().timestamp();
    let now = Timestamp::now().seconds;
    let after = Local::now().naive_local().and_utc().timestamp();
    assert!(before <= now && now <= after);
}

#[test]
fn minutes_until_rounds_toward_zero() {
    let now = Timestamp { seconds: NINE_ON_NEW_YEAR };
    let ahead = |seconds: i64| Timestamp { seconds: NINE_ON_NEW_YEAR + seconds }.minutes_until(now);
    assert_eq!(ahead(0), 0);
    assert_eq!(ahead(59), 0);
    assert_eq!(ahead(60), 1);
    assert_eq!(ahead(119), 1);
    assert_eq!(ahead(120), 2);
    assert_eq!(ahead(150), 2);
    assert_eq!(ahead(-1), 0);
    assert_eq!(ahead(-59), 0);
    assert_eq!(ahead(-60), -1);
    assert_eq!(ahead(-150), -2);
    assert_eq!(ahead(-300), -5);
}

#[test]
fn minutes_until_spans_the_whole_line() {
    let first = Timestamp { seconds: i64::MIN };
    let last = Timestamp { seconds: i64::MAX };
    assert_eq!(last.minutes_until(first), 307_445_734_561_825_860);
    assert_eq!(first.minutes_until(last), -307_445_734_561_825_860);
    assert!(first.is_due(last));
    assert!(!last.is_due(first));
}

#[test]
fn due_boundary() {
    let now = at("2024-01-01 09:00:00");
    assert!(at("2024-01-01 09:00:00").is_due(now));
    assert!(!at("2024-01-01 09:02:00").is_due(now));
    assert!(at("2024-01-01 08:55:00").is_due(now));
    assert!(at("2024-01-01 09:00:59").is_due(now));
    assert!(!at("2024-01-01 09:01:00").is_due(now));
}

#[test]
fn a_due_note_stays_due() {
    let note = Note::new("Buy milk".to_string(), Some(at("2024-01-01 09:00:00")), None);
    let mut now = at("2024-01-01 09:00:00");
    assert!(note.is_due_at(now));
    for _ in 0..1000 {
        now = Timestamp { seconds: now.seconds + 86_400 * 37 + 11 };
        assert!(note.is_due_at(now));
    }
    assert!(note.is_due_at(Timestamp { seconds: i64::MAX }));
}

#[test]
fn is_note_due_reads_the_clock() {
    let past = Note::new("Past".to_string(), Some(at("2000-01-01 00:00:00")), None);
    let future = Note::new("Future".to_string(), Some(at("9999-12-31 23:59:59")), None);
    assert!(is_note_due(&past));
    assert!(!is_note_due(&future));
}

#[test]
fn time_of_day_stays_on_the_clock() {
    assert_eq!(TimeOfDay::new(0, 0, 0).unwrap().seconds(), 0);
    assert_eq!(TimeOfDay::new(9, 30, 15).unwrap().seconds(), 34_215);
    assert_eq!(TimeOfDay::new(23, 59, 59).unwrap().seconds(), 86_399);
    assert!(TimeOfDay::new(24, 0, 0).is_none());
    assert!(TimeOfDay::new(0, 60, 0).is_none());
    assert!(TimeOfDay::new(0, 0, 60).is_none());
}

#[test]
fn a_note_takes_the_given_moment() {
    let note = Note::new(
        "Buy milk".to_string(),
        Some(at("2024-01-01 09:00:00")),
        TimeOfDay::new(10, 0, 0),
    );
    assert_eq!(note.text, "Buy milk");
    assert_eq!(note.schedule.seconds, NINE_ON_NEW_YEAR);
}

#[test]
fn a_note_without_a_date_is_for_today() {
    let before = Local::now().naive_local().date();
    let note = Note::new("Stand up".to_string(), None, TimeOfDay::new(9, 30, 0));
    let after = Local::now().naive_local().date();
    let on = |day: NaiveDate| day.and_hms_opt(9, 30, 0).unwrap().and_utc().timestamp();
    assert!(note.schedule.seconds == on(before) || note.schedule.seconds == on(after));
    assert_eq!(note.text, "Stand up");
}

#[test]
fn a_note_is_resolved_on_the_day_given() {
    let day = NaiveDate::from_ymd_opt(2024, 2, 29).unwrap().num_days_from_ce();
    let note = Note::scheduled("Leap".to_string(), None, TimeOfDay::new(23, 59, 59), day);
    assert_eq!(note.schedule, at("2024-02-29 23:59:59"));
    let fixed = Note::scheduled("Leap".to_string(), Some(at("2024-01-01 09:00:00")), None, day);
    assert_eq!(fixed.schedule.seconds, NINE_ON_NEW_YEAR);
}
