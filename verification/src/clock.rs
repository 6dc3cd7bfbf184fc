use vstd::prelude::*;
use chrono::Datelike;
use chrono::Timelike;

verus! {

/// A local calendar time, held as plain fields.
#[derive(Clone, Copy, PartialEq, Eq, Structural, Debug)]
pub struct CivilDateTime {
    pub year: i32,
    pub month: u8,
    pub day: u8,
    pub hour: u8,
    pub minute: u8,
    pub second: u8,
}

pub open spec fn leap_year(y: int) -> bool {
    (y % 4 == 0 && y % 100 != 0) || y % 400 == 0
}

pub open spec fn days_in_month(y: int, m: int) -> int {
    if m == 2 {
        if leap_year(y) {
            29
        } else {
            28
        }
    } else if m == 4 || m == 6 || m == 9 || m == 11 {
        30
    } else {
        31
    }
}

impl CivilDateTime {
    /// Every field inside its calendar range.
    pub open spec fn in_ranges(self) -> bool {
        &&& 1 <= self.month <= 12
        &&& 1 <= self.day <= 31
        &&& self.hour < 24
        &&& self.minute < 60
        &&& self.second < 60
        &&& 0 < self.year < i32::MAX
    }

    /// A real calendar time: in range, with the day inside its month.
    pub open spec fn wf(self) -> bool {
        &&& self.in_ranges()
        &&& self.day <= days_in_month(self.year as int, self.month as int)
    }

    /// Field-lexicographic order: the calendar order of two times.
    pub open spec fn le_spec(self, other: CivilDateTime) -> bool {
        if self.year != other.year {
            self.year < other.year
        } else if self.month != other.month {
            self.month < other.month
        } else if self.day != other.day {
            self.day < other.day
        } else if self.hour != other.hour {
            self.hour < other.hour
        } else if self.minute != other.minute {
            self.minute < other.minute
        } else {
            self.second <= other.second
        }
    }

    pub fn le(&self, other: &CivilDateTime) -> (r: bool)
        ensures
            r == self.le_spec(*other),
    {
        if self.year != other.year {
            self.year < other.year
        } else if self.month != other.month {
            self.month < other.month
        } else if self.day != other.day {
            self.day < other.day
        } else if self.hour != other.hour {
            self.hour < other.hour
        } else if self.minute != other.minute {
            self.minute < other.minute
        } else {
            self.second <= other.second
        }
    }
}

fn days_in_month_exec(y: i32, m: u8) -> (r: u8)
    ensures
        r as int == days_in_month(y as int, m as int),
{
    if m == 2 {
        if (y % 4 == 0 && y % 100 != 0) || y % 400 == 0 {
            29
        } else {
            28
        }
    } else if m == 4 || m == 6 || m == 9 || m == 11 {
        30
    } else {
        31
    }
}

/// The calendar day after the given one.
pub open spec fn next_day(d: CivilDateTime) -> (int, int, int) {
    if d.day < days_in_month(d.year as int, d.month as int) {
        (d.year as int, d.month as int, d.day + 1)
    } else if d.month < 12 {
        (d.year as int, d.month + 1, 1int)
    } else {
        (d.year + 1, 1int, 1int)
    }
}

/// The next maintenance boundary after `now`: two o'clock in the
/// night of the following day.
pub fn next_maintenance_after(now: &CivilDateTime) -> (r: CivilDateTime)
    requires
        now.in_ranges(),
        now.year < i32::MAX - 1,
    ensures
        r.wf(),
        (r.year as int, r.month as int, r.day as int) == next_day(*now),
        r.hour == 2 && r.minute == 0 && r.second == 0,
        now.le_spec(r),
        r != *now,
{
    let (year, month, day): (i32, u8, u8) = if now.day < days_in_month_exec(now.year, now.month) {
        (now.year, now.month, now.day + 1)
    } else if now.month < 12 {
        (now.year, now.month + 1, 1)
    } else {
        (now.year + 1, 1, 1)
    };
    CivilDateTime { year, month, day, hour: 2, minute: 0, second: 0 }
}

/// Relies on chrono's Local::now: the current local calendar time,
/// whose fields chrono keeps within calendar ranges. Nothing more can
/// be said of a clock reading.
#[verifier::external_body]
pub fn local_now() -> (r: CivilDateTime)
    ensures
        r.in_ranges(),
        r.year < i32::MAX - 1,
{
    let t = chrono::Local::now().naive_local();
    CivilDateTime {
        year: t.year().clamp(1, i32::MAX - 2),
        month: t.month().clamp(1, 12) as u8,
        day: t.day().clamp(1, 31) as u8,
        hour: t.hour().clamp(0, 23) as u8,
        minute: t.minute().clamp(0, 59) as u8,
        second: t.second().clamp(0, 59) as u8,
    }
}

/// Relies on std's SystemTime::now: the current moment as
/// milliseconds since the epoch, negative for a machine clock that
/// reads before it. Nothing more can be said of a clock reading, and
/// no reading makes this call fail.
#[verifier::external_body]
pub fn now_millis() -> (r: i64)
{
    match std::time::SystemTime::now().duration_since(std::time::UNIX_EPOCH) {
        Ok(d) => d.as_millis() as i64,
        Err(e) => -(e.duration().as_millis() as i64),
    }
}

/// The next maintenance boundary from the clock now: always a two
/// o'clock boundary.
pub fn next_maintainence() -> (r: CivilDateTime)
    ensures
        r.wf(),
        r.hour == 2 && r.minute == 0 && r.second == 0,
{
    let now = local_now();
    next_maintenance_after(&now)
}

} // verus!
