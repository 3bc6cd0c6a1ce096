//! Points on the civil time line, the clock, and the rule that decides when a
//! schedule is due.

use chrono::{DateTime, Datelike, Local, NaiveDateTime, Timelike};
use vstd::prelude::*;

verus! {

/// Seconds in one civil day.
pub const SECONDS_PER_DAY: i64 = 86_400;

/// The day number of 1970-01-01, where 0001-01-01 is day 1.
pub const EPOCH_DAY: i64 = 719_163;

/// A note is due once fewer than this many whole minutes separate the clock
/// from its schedule.
pub const THRESHOLD_MINUTES: i64 = 1;

/// The layout in which a schedule is written: `2024-01-31 09:00:00`.
pub const SCHEDULE_LAYOUT: &'static str = "%Y-%m-%d %H:%M:%S";

/// A second on the civil (zone-less, leap-second-free) time line, counted from
/// 1970-01-01 00:00:00.
#[derive(Clone, Copy, Debug, PartialEq, Eq, Structural)]
pub struct Timestamp {
    pub seconds: i64,
}

/// A time of day, to the second.
#[derive(Clone, Copy, Debug)]
pub struct TimeOfDay {
    hour: u8,
    minute: u8,
    second: u8,
}

impl TimeOfDay {
    #[verifier::type_invariant]
    spec fn on_the_clock(self) -> bool {
        self.hour < 24 && self.minute < 60 && self.second < 60
    }

    /// Seconds elapsed since midnight.
    pub closed spec fn second_of_day(self) -> nat {
        (self.hour * 3600 + self.minute * 60 + self.second) as nat
    }

    /// The time `hour:minute:second`, or `None` where no clock shows it.
    pub fn new(hour: u8, minute: u8, second: u8) -> (time: Option<TimeOfDay>)
        ensures
            time is Some <==> hour < 24 && minute < 60 && second < 60,
            time matches Some(t) ==> t.second_of_day() == hour * 3600 + minute * 60 + second,
    {
        if hour < 24 && minute < 60 && second < 60 {
            Some(TimeOfDay { hour, minute, second })
        } else {
            None
        }
    }

    /// Seconds elapsed since midnight.
    pub fn seconds(&self) -> (seconds: u32)
        ensures
            seconds == self.second_of_day(),
            seconds < SECONDS_PER_DAY,
    {
        proof {
            use_type_invariant(self);
        }
        self.hour as u32 * 3600 + self.minute as u32 * 60 + self.second as u32
    }
}

/// The text that chrono's formatter writes for the second `seconds` in
/// [`SCHEDULE_LAYOUT`], or `None` where chrono has no date for it.
pub uninterp spec fn formatted_timestamp(seconds: i64) -> Option<Seq<char>>;

/// The second that chrono's parser reads from `text` in [`SCHEDULE_LAYOUT`],
/// or `None` where it rejects the text.
pub uninterp spec fn parsed_timestamp(text: Seq<char>) -> Option<i64>;

/// Whole minutes from `now` until `schedule`, rounded toward zero; negative
/// once the schedule lies in the past.
pub open spec fn minutes_between(schedule: Timestamp, now: Timestamp) -> int {
    let seconds = schedule.seconds - now.seconds;
    if seconds >= 0 {
        seconds / 60
    } else {
        -((-seconds) / 60)
    }
}

/// The due rule: fewer than [`THRESHOLD_MINUTES`] whole minutes remain.
pub open spec fn due_at(schedule: Timestamp, now: Timestamp) -> bool {
    minutes_between(schedule, now) < THRESHOLD_MINUTES
}

impl Timestamp {
    /// The second that lies `second_of_day` seconds into day `day`.
    pub open spec fn on_day(day: i32, second_of_day: u32) -> Timestamp {
        Timestamp { seconds: ((day - EPOCH_DAY) * SECONDS_PER_DAY + second_of_day) as i64 }
    }

    /// A timestamp can be stored when its written form reads back as itself.
    pub open spec fn storable(self) -> bool {
        match formatted_timestamp(self.seconds) {
            Some(text) => parsed_timestamp(text) == Some(self.seconds),
            None => false,
        }
    }

    /// The written form of a storable timestamp.
    pub open spec fn text(self) -> Seq<char> {
        formatted_timestamp(self.seconds).unwrap()
    }

    /// The timestamp that `text` is the written form of, if it is one.
    pub open spec fn read(text: Seq<char>) -> Option<Timestamp> {
        match parsed_timestamp(text) {
            Some(seconds) => if formatted_timestamp(seconds) == Some(text) {
                Some(Timestamp { seconds })
            } else {
                None
            },
            None => None,
        }
    }

    /// Builds the timestamp from a day number (0001-01-01 is day 1) and the
    /// seconds elapsed since that day's midnight.
    pub fn from_day_and_second(day: i32, second_of_day: u32) -> (t: Timestamp)
        ensures
            t == Timestamp::on_day(day, second_of_day),
    {
        let days: i64 = day as i64 - EPOCH_DAY;
        Timestamp { seconds: days * SECONDS_PER_DAY + second_of_day as i64 }
    }

    /// Reads the local clock.
    pub fn now() -> (t: Timestamp)
        ensures
            exists|day: i32, second_of_day: u32| t == Timestamp::on_day(day, second_of_day),
    {
        let (day, second_of_day) = local_clock();
        Timestamp::from_day_and_second(day, second_of_day)
    }

    /// Reads a timestamp from its written form. Only the canonical form is
    /// accepted: the text must be what writing the timestamp gives back.
    pub fn parse(text: &str) -> (t: Option<Timestamp>)
        ensures
            t == Timestamp::read(text@),
    {
        let given: String = text.to_owned();
        match read_timestamp(text) {
            Some(seconds) => match write_timestamp(seconds) {
                Some(written) => if written == given {
                    Some(Timestamp { seconds })
                } else {
                    None
                },
                None => None,
            },
            None => None,
        }
    }

    /// The written form of the timestamp, or `None` where it has none that
    /// reads back as the same timestamp.
    pub fn to_text(&self) -> (text: Option<String>)
        ensures
            text is Some <==> self.storable(),
            text matches Some(t) ==> t@ == self.text(),
    {
        match write_timestamp(self.seconds) {
            Some(written) => match read_timestamp(written.as_str()) {
                Some(seconds) => if seconds == self.seconds {
                    Some(written)
                } else {
                    None
                },
                None => None,
            },
            None => None,
        }
    }

    /// Whole minutes from `now` until this timestamp, rounded toward zero.
    pub fn minutes_until(&self, now: Timestamp) -> (minutes: i64)
        ensures
            minutes == minutes_between(*self, now),
    {
        let seconds: i128 = self.seconds as i128 - now.seconds as i128;
        if seconds >= 0 {
            let ahead: u128 = seconds as u128;
            (ahead / 60) as i64
        } else {
            let behind: u128 = (-seconds) as u128;
            -((behind / 60) as i64)
        }
    }

    /// Decides the due rule for this schedule against the clock reading `now`.
    pub fn is_due(&self, now: Timestamp) -> (due: bool)
        ensures
            due == due_at(*self, now),
    {
        self.minutes_until(now) < THRESHOLD_MINUTES
    }
}

/// Reads the local wall clock through chrono's `Local::now` and hands back the
/// local date as a day number and the local time as seconds since midnight.
/// Nothing is claimed of the reading: the clock may show any moment.
#[verifier::external_body]
pub(crate) fn local_clock() -> (reading: (i32, u32)) {
    let now: NaiveDateTime = Local::now().naive_local();
    (now.num_days_from_ce(), now.num_seconds_from_midnight())
}

/// Writes the second `seconds` with chrono: `DateTime::from_timestamp` finds
/// the date, which is then formatted in [`SCHEDULE_LAYOUT`]. The contract only
/// gives the outcome its name.
#[verifier::external_body]
fn write_timestamp(seconds: i64) -> (text: Option<String>)
    ensures
        text is Some <==> formatted_timestamp(seconds) is Some,
        text matches Some(t) ==> formatted_timestamp(seconds) == Some(t@),
{
    match DateTime::from_timestamp(seconds, 0) {
        Some(moment) => Some(moment.naive_utc().format(SCHEDULE_LAYOUT).to_string()),
        None => None,
    }
}

/// Reads a timestamp with chrono's `NaiveDateTime::parse_from_str` in
/// [`SCHEDULE_LAYOUT`] and counts its seconds from 1970-01-01 00:00:00. The
/// contract only gives the outcome its name.
#[verifier::external_body]
fn read_timestamp(text: &str) -> (seconds: Option<i64>)
    ensures
        seconds == parsed_timestamp(text@),
{
    match NaiveDateTime::parse_from_str(text, SCHEDULE_LAYOUT) {
        Ok(moment) => Some(moment.and_utc().timestamp()),
        Err(_) => None,
    }
}

/// Reading and writing a timestamp undo each other: a storable timestamp is
/// read back from its written form, and what is read from a text has that
/// text as its written form.
pub proof fn law_timestamp_text_round_trip(t: Timestamp, text: Seq<char>)
    ensures
        t.storable() ==> Timestamp::read(t.text()) == Some(t),
        Timestamp::read(text) == Some(t) ==> t.storable() && t.text() == text,
{
}

/// Once due, always due: the clock moving on never takes a schedule out of
/// the due state.
pub proof fn law_due_persists(schedule: Timestamp, now: Timestamp, later: Timestamp)
    requires
        due_at(schedule, now),
        now.seconds <= later.seconds,
    ensures
        due_at(schedule, later),
{
}

/// The due rule is a deadline: a schedule is due exactly when less than a
/// full minute separates the clock from it, or it has already passed.
pub proof fn law_due_is_a_deadline(schedule: Timestamp, now: Timestamp)
    ensures
        due_at(schedule, now) <==> schedule.seconds - now.seconds < 60,
{
}

} // verus!
