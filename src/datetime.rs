use vstd::prelude::*;

verus! {

/// A day of the proleptic Gregorian calendar.
#[derive(Clone, Copy, PartialEq, Eq, Structural, Debug, PartialOrd, Ord, Hash)]
pub struct Date {
    pub year: i32,
    pub month: u32,
    pub day: u32,
}

/// A time of day.
#[derive(Clone, Copy, PartialEq, Eq, Structural, Debug, PartialOrd, Ord, Hash)]
pub struct Time {
    pub hour: u32,
    pub minute: u32,
}

/// A civil date and time, without a time zone.
#[derive(Clone, Copy, PartialEq, Eq, Structural, Debug, PartialOrd, Ord, Hash)]
pub struct DateTime {
    pub date: Date,
    pub time: Time,
}

/// A contiguous interval of work `[start, end)` on a task.
#[derive(Clone, Copy, PartialEq, Eq, Structural, Debug, PartialOrd, Ord, Hash)]
pub struct Session {
    pub start: DateTime,
    pub end: DateTime,
}

impl DateTime {
    /// A date and time that the calendar and the clock can show.
    pub open spec fn valid(&self) -> bool {
        &&& 1 <= self.date.month <= 12
        &&& 1 <= self.date.day <= 31
        &&& self.time.hour < 24
        &&& self.time.minute < 60
    }
}

impl Session {
    pub open spec fn valid(&self) -> bool {
        self.start.valid() && self.end.valid()
    }
}

} // verus!
