//! Timestamps: a day number and the seconds past midnight.

use vstd::prelude::*;

use crate::strategy::NiftyStrategy;

verus! {

/// Seconds in a day.
pub const SECONDS_PER_DAY: u32 = 86400;

/// Width of a bar, in seconds.
pub const BAR_SECONDS: u32 = 300;

/// A point in time with second precision.
///
/// `day` counts days in the proleptic Gregorian calendar, with 0001-01-01 as
/// day 1; `second` is the number of seconds past midnight.
#[derive(Clone, Copy, Debug, PartialEq, Eq, Structural)]
pub struct Timestamp {
    pub day: i32,
    pub second: u32,
}

impl Timestamp {
    /// A timestamp names a second of a day.
    pub open spec fn wf(self) -> bool {
        self.second < SECONDS_PER_DAY
    }

    pub open spec fn spec_hour(self) -> int {
        self.second as int / 3600
    }

    pub open spec fn spec_minute(self) -> int {
        (self.second as int / 60) % 60
    }

    pub open spec fn spec_second(self) -> int {
        self.second as int % 60
    }

    /// Hour of the day.
    pub fn hour(&self) -> (r: u32)
        ensures
            r == self.spec_hour(),
    {
        self.second / 3600
    }

    /// Minute of the hour.
    pub fn minute(&self) -> (r: u32)
        ensures
            r == self.spec_minute(),
    {
        (self.second / 60) % 60
    }

    /// Second of the minute.
    pub fn second(&self) -> (r: u32)
        ensures
            r == self.spec_second(),
    {
        self.second % 60
    }
}

/// Whether `a` is not later than `b`.
pub open spec fn ts_le(a: Timestamp, b: Timestamp) -> bool {
    a.day < b.day || (a.day == b.day && a.second <= b.second)
}

/// The start of the bar that holds `t`: minutes floored to a multiple of five,
/// seconds cleared.
pub open spec fn bucket_of(t: Timestamp) -> Timestamp {
    Timestamp { day: t.day, second: (t.second - t.second % BAR_SECONDS) as u32 }
}

/// A timestamp on the bar grid has a minute that is a multiple of five and no seconds.
pub open spec fn on_grid(t: Timestamp) -> bool {
    t.spec_minute() % 5 == 0 && t.spec_second() == 0
}

/// Flooring keeps the day, never moves forward, and lands on the grid.
pub proof fn lemma_bucket_on_grid(t: Timestamp)
    requires
        t.wf(),
    ensures
        bucket_of(t).wf(),
        bucket_of(t).second % BAR_SECONDS == 0,
        on_grid(bucket_of(t)),
        ts_le(bucket_of(t), t),
        bucket_of(bucket_of(t)) == bucket_of(t),
{
    let s = t.second as int;
    let b = s - s % 300;
    assert(b % 300 == 0);
    assert((b / 60) % 5 == 0 && b % 60 == 0) by (nonlinear_arith)
        requires b % 300 == 0, b >= 0;
}

/// The text of a date and time as the formats of chrono read it: the day
/// counted from 0001-01-01 as day 1, and the seconds past midnight.
pub uninterp spec fn parsed_date_time(text: Seq<char>, format: Seq<char>) -> Option<(i32, u32)>;

/// Relies on chrono's `NaiveDateTime::parse_from_str` to read `text` in
/// `format`, on `Datelike::num_days_from_ce` for the day and on
/// `Timelike::num_seconds_from_midnight` for the time, which is below 86400.
#[verifier::external_body]
fn parse_with_format(text: &str, format: &str) -> (r: Option<Timestamp>)
    ensures
        match r {
            Some(t) => parsed_date_time(text@, format@) == Some((t.day, t.second)) && t.wf(),
            None => parsed_date_time(text@, format@).is_none(),
        },
{
    match chrono::NaiveDateTime::parse_from_str(text, format) {
        Ok(dt) => Some(Timestamp {
            day: chrono::Datelike::num_days_from_ce(&dt),
            second: chrono::Timelike::num_seconds_from_midnight(&dt),
        }),
        Err(_) => None,
    }
}

/// The formats tried, in order, when reading a date and time.
pub open spec fn date_time_formats() -> Seq<Seq<char>> {
    seq![
        "%Y-%m-%d %H:%M:%S"@,
        "%d-%m-%Y %H:%M:%S"@,
        "%Y/%m/%d %H:%M:%S"@,
        "%d/%m/%Y %H:%M:%S"@,
        "%Y-%m-%d %H:%M"@,
        "%d-%m-%Y %H:%M"@,
    ]
}

/// The reading of `text` by the first of `formats` that accepts it.
pub open spec fn first_parse(text: Seq<char>, formats: Seq<Seq<char>>) -> Option<(i32, u32)>
    decreases formats.len(),
{
    if formats.len() == 0 {
        None
    } else {
        match parsed_date_time(text, formats[0]) {
            Some(p) => Some(p),
            None => first_parse(text, formats.drop_first()),
        }
    }
}

impl NiftyStrategy {
    /// Reads a date and time in the first of the accepted formats that fits.
    pub fn parse_datetime(datetime_str: &str) -> (r: Option<Timestamp>)
        ensures
            match r {
                Some(t) => t.wf() && first_parse(datetime_str@, date_time_formats()) == Some((t.day, t.second)),
                None => first_parse(datetime_str@, date_time_formats()).is_none(),
            },
    {
        let formats: [&str; 6] = [
            "%Y-%m-%d %H:%M:%S",
            "%d-%m-%Y %H:%M:%S",
            "%Y/%m/%d %H:%M:%S",
            "%d/%m/%Y %H:%M:%S",
            "%Y-%m-%d %H:%M",
            "%d-%m-%Y %H:%M",
        ];
        proof {
            reveal_strlit("%Y-%m-%d %H:%M:%S");
            reveal_strlit("%d-%m-%Y %H:%M:%S");
            reveal_strlit("%Y/%m/%d %H:%M:%S");
            reveal_strlit("%d/%m/%Y %H:%M:%S");
            reveal_strlit("%Y-%m-%d %H:%M");
            reveal_strlit("%d-%m-%Y %H:%M");
            assert(formats@.map_values(|f: &str| f@) =~= date_time_formats());
            assert(date_time_formats().skip(0) =~= date_time_formats());
        }
        let mut i: usize = 0;
        while i < 6
            invariant
                i <= 6,
                formats@.map_values(|f: &str| f@) == date_time_formats(),
                first_parse(datetime_str@, date_time_formats()) == first_parse(
                    datetime_str@,
                    date_time_formats().skip(i as int),
                ),
            decreases 6 - i,
        {
            let ghost rest = date_time_formats().skip(i as int);
            assert(rest[0] == formats[i as int]@);
            assert(rest.drop_first() =~= date_time_formats().skip(i + 1));
            match parse_with_format(datetime_str, formats[i]) {
                Some(t) => {
                    return Some(t);
                },
                None => {},
            }
            i = i + 1;
        }
        assert(date_time_formats().skip(6).len() == 0);
        None
    }

    /// The start of the five-minute bar that holds `datetime`.
    pub fn round_to_5min(datetime: Timestamp) -> (r: Timestamp)
        requires
            datetime.wf(),
        ensures
            r == bucket_of(datetime),
            r.wf(),
            on_grid(r),
    {
        proof {
            lemma_bucket_on_grid(datetime);
        }
        Timestamp { day: datetime.day, second: datetime.second - datetime.second % BAR_SECONDS }
    }
}

} // verus!
