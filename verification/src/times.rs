//! Wall-clock time of day, compared only within a single day.
//!
//! Trains carry a departure and an arrival time; the conflict rule of the
//! booking service compares them with strict inequalities. A time is stored
//! as the number of seconds since midnight.

use chrono::Timelike;
use vstd::prelude::*;

verus! {

/// The time of day, in seconds since midnight, that an `HH:MM` string
/// parses to, or `None` for text that is not an hour-minute time. The
/// outcome depends on the characters alone; its exact shape is chrono's.
pub uninterp spec fn hm_parse(s: Seq<char>) -> Option<u32>;

/// Number of seconds in a day; every well-formed [`Time`] lies below it.
pub const SECONDS_PER_DAY: u32 = 86400;

/// A wall-clock time of day (no date), stored as seconds since midnight.
#[derive(Debug, Clone, Copy, PartialEq, Eq, Structural)]
pub struct Time {
    seconds: u32,
}

impl View for Time {
    type V = int;

    closed spec fn view(&self) -> int {
        self.seconds as int
    }
}

impl Time {
    /// A well-formed time lies within the day.
    pub open spec fn wf(&self) -> bool {
        self@ < SECONDS_PER_DAY
    }

    /// The time as seconds since midnight.
    pub fn seconds(&self) -> (r: u32)
        ensures
            r == self@,
    {
        self.seconds
    }

    /// Builds a time from hour, minute and second fields; returns `None`
    /// exactly when one of them is out of range.
    pub fn from_hms_opt(hour: u32, minute: u32, second: u32) -> (r: Option<Time>)
        ensures
            match r {
                Some(t) => {
                    &&& hour < 24 && minute < 60 && second < 60
                    &&& t@ == hour * 3600 + minute * 60 + second
                    &&& t.wf()
                },
                None => !(hour < 24 && minute < 60 && second < 60),
            },
    {
        if hour < 24 && minute < 60 && second < 60 {
            Some(Time { seconds: hour * 3600 + minute * 60 + second })
        } else {
            None
        }
    }

    /// Parses an `HH:MM` wall-clock string; `None` exactly when the text
    /// does not parse as an hour-minute time.
    pub fn parse_hm(s: &str) -> (r: Option<Time>)
        ensures
            match r {
                Some(t) => hm_parse(s@) matches Some(n) && n == t@ && t.wf(),
                None => hm_parse(s@) is None,
            },
    {
        match parse_hm_seconds(s) {
            Some(n) => Some(Time { seconds: n }),
            None => None,
        }
    }
}

/// Relies on `chrono::NaiveTime::parse_from_str` with the `"%H:%M"` format,
/// and on `Timelike::num_seconds_from_midnight` to read the result: which
/// strings parse, and to which time, depends on the characters alone, and
/// chrono documents that the seconds from midnight lie in `0..86400`.
#[verifier::external_body]
fn parse_hm_seconds(s: &str) -> (r: Option<u32>)
    ensures
        r == hm_parse(s@),
        r matches Some(n) ==> n < SECONDS_PER_DAY,
{
    match chrono::NaiveTime::parse_from_str(s, "%H:%M") {
        Ok(t) => Some(t.num_seconds_from_midnight()),
        Err(_) => None,
    }
}

} // verus!
