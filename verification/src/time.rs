//! Points in time.

use crate::data::{Dup, Same};
use crate::text;
use vstd::arithmetic::div_mod::lemma_mod_multiples_vanish;
use vstd::prelude::*;

verus! {

/// A point in time: whole seconds since the Unix epoch and the nanoseconds
/// into that second.
#[derive(Debug, Clone, Copy, PartialEq, Eq, Hash)]
pub struct Timestamp {
    pub secs: i64,
    pub nanos: u32,
}

impl DeepView for Timestamp {
    type V = Timestamp;

    open spec fn deep_view(&self) -> Timestamp {
        *self
    }
}

impl Dup for Timestamp {
    fn dup(&self) -> (r: Timestamp) {
        *self
    }
}

impl Same for Timestamp {
    fn same(&self, other: &Timestamp) -> (r: bool) {
        self.secs == other.secs && self.nanos == other.nanos
    }
}

/// `a` is an earlier point in time than `b`.
pub open spec fn earlier(a: Timestamp, b: Timestamp) -> bool {
    a.secs < b.secs || (a.secs == b.secs && a.nanos < b.nanos)
}

/// The later of two points in time.
pub open spec fn later_of(a: Timestamp, b: Timestamp) -> Timestamp {
    if earlier(a, b) {
        b
    } else {
        a
    }
}

/// Nanoseconds from `a` to `b`.
pub open spec fn gap(a: Timestamp, b: Timestamp) -> int {
    (b.secs - a.secs) * 1_000_000_000 + (b.nanos - a.nanos)
}

impl Timestamp {
    pub fn new(secs: i64, nanos: u32) -> (r: Timestamp)
        ensures
            r == (Timestamp { secs, nanos }),
    {
        Timestamp { secs, nanos }
    }

    pub fn before(&self, other: &Timestamp) -> (r: bool)
        ensures
            r == earlier(*self, *other),
    {
        self.secs < other.secs || (self.secs == other.secs && self.nanos < other.nanos)
    }

    pub fn later(&self, other: &Timestamp) -> (r: Timestamp)
        ensures
            r == later_of(*self, *other),
    {
        if self.before(other) {
            *other
        } else {
            *self
        }
    }

    /// Nanoseconds from this point in time to `other`.
    pub fn until(&self, other: &Timestamp) -> (r: i128)
        ensures
            r == gap(*self, *other),
    {
        (other.secs as i128 - self.secs as i128) * 1_000_000_000 + (other.nanos as i128
            - self.nanos as i128)
    }
}

// ---------------------------------------------------------------------------
// The calendar
/// Whether a second since the Unix epoch has a place in the calendar, which
/// spans the first day of the year -262143 to the last of the year 262142.
pub open spec fn in_calendar(secs: i64) -> bool {
    -8_334_601_228_800 <= secs <= 8_210_266_876_799
}

/// Asks `chrono::DateTime::from_timestamp` whether a second has a place in the
/// calendar.
///
/// Claimed of it: it has one exactly from the start of `NaiveDate::MIN` to the
/// end of `NaiveDate::MAX`.
#[verifier::external_body]
pub(crate) fn calendar_has(secs: i64) -> (r: bool)
    ensures
        r == in_calendar(secs),
{
    chrono::DateTime::from_timestamp(secs, 0).is_some()
}

/// A time given in seconds, when the calendar has it.
pub open spec fn calendar_time(secs: i64) -> Option<Timestamp> {
    if in_calendar(secs) {
        Some(Timestamp { secs, nanos: 0 })
    } else {
        None
    }
}

/// The Unix epoch.
pub open spec fn epoch() -> Timestamp {
    Timestamp { secs: 0, nanos: 0 }
}

impl Timestamp {
    /// A time given in seconds, when the calendar has it.
    pub fn from_secs(secs: i64) -> (r: Option<Timestamp>)
        ensures
            r == calendar_time(secs),
    {
        if calendar_has(secs) {
            Some(Timestamp { secs, nanos: 0 })
        } else {
            None
        }
    }

    /// A time given in seconds; the epoch when the calendar does not have it.
    pub fn from_secs_or_epoch(secs: i64) -> (r: Timestamp)
        ensures
            r == (match calendar_time(secs) {
                Some(t) => t,
                None => epoch(),
            }),
    {
        match Timestamp::from_secs(secs) {
            Some(t) => t,
            None => Timestamp { secs: 0, nanos: 0 },
        }
    }
}

// ---------------------------------------------------------------------------
// Local time
/// How far local time is ahead of UTC, in seconds: each entry holds from its
/// own second on.
#[derive(Debug, Clone, PartialEq, Eq)]
pub struct Zone {
    pub offsets: Vec<(i64, i32)>,
}

impl DeepView for Zone {
    type V = Seq<(i64, i32)>;

    open spec fn deep_view(&self) -> Seq<(i64, i32)> {
        self.offsets@
    }
}

/// The offset that holds at a second; none before the first entry.
pub open spec fn offset_at(offsets: Seq<(i64, i32)>, secs: i64) -> int
    decreases offsets.len(),
{
    if offsets.len() == 0 {
        0
    } else if offsets.last().0 <= secs {
        offsets.last().1 as int
    } else {
        offset_at(offsets.drop_last(), secs)
    }
}

/// Local seconds: what a clock on the wall counts.
pub open spec fn wall(zone: Seq<(i64, i32)>, ts: Timestamp) -> int {
    ts.secs + offset_at(zone, ts.secs)
}

/// The day a local second falls on, counted from the epoch.
pub open spec fn day_of(wall: int) -> int {
    wall / 86400
}

/// A number below a hundred as two digits.
pub open spec fn two_digits(n: int) -> Seq<char> {
    seq![text::digit((n / 10) as nat), text::digit((n % 10) as nat)]
}

/// `HH:MM` of a local second.
pub open spec fn clock_text(wall: int) -> Seq<char> {
    let s = wall % 86400;
    two_digits(s / 3600) + ":"@ + two_digits(s / 60 % 60)
}

/// `HH:MM:SS` of a local second.
pub open spec fn clock_seconds_text(wall: int) -> Seq<char> {
    clock_text(wall) + ":"@ + two_digits(wall % 86400 % 60)
}

/// A second since the epoch in a calendar notation; `None` for one that the
/// calendar does not have.
pub uninterp spec fn calendar_text(secs: i64, pattern: Seq<char>) -> Option<Seq<char>>;

/// Writes a second since the epoch, taken as UTC, with
/// `chrono::DateTime::format`.
///
/// Claimed of it: there is a notation for every second that the calendar has,
/// and it depends on the second and the pattern alone.
#[verifier::external_body]
fn format_calendar(secs: i64, pattern: &str) -> (r: Option<String>)
    requires
        pattern@ == "%Y-%m-%d"@ || pattern@ == "%Y%m%d-%H%M%S"@,
    ensures
        r.deep_view() == calendar_text(secs, pattern@),
        r is Some <==> in_calendar(secs),
{
    chrono::DateTime::from_timestamp(secs, 0).map(|t| t.format(pattern).to_string())
}

/// `YYYY-MM-DD` of a local second; nothing for one out of the calendar.
pub open spec fn date_text(wall: int) -> Seq<char> {
    if i64::MIN <= wall <= i64::MAX {
        match calendar_text(wall as i64, "%Y-%m-%d"@) {
            Some(t) => t,
            None => Seq::empty(),
        }
    } else {
        Seq::empty()
    }
}

/// `YYYYMMDD-HHMMSS` of a point in time, in UTC.
pub open spec fn stamp_text(ts: Timestamp) -> Seq<char> {
    match calendar_text(ts.secs, "%Y%m%d-%H%M%S"@) {
        Some(t) => t,
        None => Seq::empty(),
    }
}

/// `YYYYMMDD-HHMMSS` of a point in time, in UTC.
pub fn stamp(ts: &Timestamp) -> (r: String)
    ensures
        r@ == stamp_text(*ts),
{
    match format_calendar(ts.secs, "%Y%m%d-%H%M%S") {
        Some(t) => t,
        None => {
            let r: String = String::new();
            assert(r@ =~= Seq::empty());
            r
        },
    }
}

/// A local second, from which days and clock times are told.
#[derive(Debug, Clone, Copy, PartialEq, Eq)]
pub struct LocalTime {
    pub wall: i128,
}

/// Whole days far enough back that every local second counts from there.
const FAR_DAYS: i128 = 200_000_000_000_000;

impl LocalTime {
    pub open spec fn in_reach(self) -> bool {
        -9_300_000_000_000_000_000 <= self.wall <= 9_300_000_000_000_000_000
    }

    /// Seconds since local midnight.
    fn second_of_day(&self) -> (r: u32)
        requires
            self.in_reach(),
        ensures
            r == self.wall % 86400,
            r < 86400,
    {
        let shifted: u128 = (self.wall + 86400 * FAR_DAYS) as u128;
        proof {
            lemma_mod_multiples_vanish(FAR_DAYS as int, self.wall as int, 86400);
        }
        (shifted % 86400) as u32
    }

    /// The day, counted from the epoch.
    pub fn day(&self) -> (r: i128)
        requires
            self.in_reach(),
        ensures
            r == day_of(self.wall as int),
    {
        let shifted: u128 = (self.wall + 86400 * FAR_DAYS) as u128;
        let days: u128 = shifted / 86400;
        proof {
            assert((self.wall + 86400 * FAR_DAYS) / 86400 == self.wall as int / 86400 + FAR_DAYS)
                by (nonlinear_arith);
        }
        days as i128 - FAR_DAYS
    }

    /// `HH:MM`.
    pub fn clock(&self) -> (r: String)
        requires
            self.in_reach(),
        ensures
            r@ == clock_text(self.wall as int),
    {
        let s: u32 = self.second_of_day();
        text::cat3(&two(s / 3600), ":", &two(s / 60 % 60))
    }

    /// `HH:MM:SS`.
    pub fn clock_seconds(&self) -> (r: String)
        requires
            self.in_reach(),
        ensures
            r@ == clock_seconds_text(self.wall as int),
    {
        let s: u32 = self.second_of_day();
        text::cat3(&self.clock(), ":", &two(s % 60))
    }

    /// `YYYY-MM-DD`.
    pub fn date(&self) -> (r: String)
        ensures
            r@ == date_text(self.wall as int),
    {
        if self.wall < i64::MIN as i128 || self.wall > i64::MAX as i128 {
            let r: String = String::new();
            assert(r@ =~= Seq::empty());
            return r;
        }
        match format_calendar(self.wall as i64, "%Y-%m-%d") {
            Some(t) => t,
            None => {
                let r: String = String::new();
                assert(r@ =~= Seq::empty());
                r
            },
        }
    }
}

fn two(n: u32) -> (r: String)
    requires
        n < 100,
    ensures
        r@ == two_digits(n as int),
{
    let mut out: String = String::new();
    out.push(((n / 10) as u8 + 48) as char);
    out.push(((n % 10) as u8 + 48) as char);
    assert(out@ =~= two_digits(n as int));
    out
}

impl Zone {
    /// The local time of a point in time.
    pub fn local(&self, ts: &Timestamp) -> (r: LocalTime)
        ensures
            r.wall == wall(self.deep_view(), *ts),
            r.in_reach(),
    {
        let mut k: usize = self.offsets.len();
        assert(self.offsets@.take(k as int) =~= self.offsets@);
        while k > 0
            invariant
                k <= self.offsets.len(),
                offset_at(self.offsets@, ts.secs) == offset_at(
                    self.offsets@.take(k as int),
                    ts.secs,
                ),
            decreases k,
        {
            assert(self.offsets@.take(k as int).last() == self.offsets@[k - 1]);
            if self.offsets[k - 1].0 <= ts.secs {
                return LocalTime { wall: ts.secs as i128 + self.offsets[k - 1].1 as i128 };
            }
            assert(self.offsets@.take(k as int).drop_last() =~= self.offsets@.take(k - 1));
            k -= 1;
        }
        LocalTime { wall: ts.secs as i128 }
    }
}

// ---------------------------------------------------------------------------
// What holds of all time
/// Of two different points in time one is the earlier, and it is so by a
/// positive number of nanoseconds; the later of the two is the other. Nanoseconds
/// add up.
pub proof fn lemma_time_goes_on(a: Timestamp, b: Timestamp, c: Timestamp)
    requires
        a.nanos < 1_000_000_000,
        b.nanos < 1_000_000_000,
        c.nanos < 1_000_000_000,
    ensures
        earlier(a, b) <==> gap(a, b) > 0,
        a == b <==> gap(a, b) == 0,
        earlier(a, b) ==> later_of(a, b) == b && later_of(b, a) == b,
        later_of(a, a) == a,
        gap(a, b) + gap(b, c) == gap(a, c),
        a.nanos == b.nanos ==> gap(a, b) == (b.secs - a.secs) * 1_000_000_000,
        a.secs == b.secs ==> gap(a, b) == b.nanos - a.nanos,
{
}

} // verus!
