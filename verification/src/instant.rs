//! Points in time as timetable attributes write them.
//!
//! Reading, writing and moving such a point is the work of `chrono`. Verified
//! code sees a point as two integers, and each call into `chrono` stands
//! behind a small function whose contract is taken on trust.

use vstd::prelude::*;

verus! {

/// How a timetable attribute writes a point in time.
pub const TIME_LAYOUT: &'static str = "%Y-%m-%d %H:%M:%S";

/// The second at which year -262143 begins, the earliest that `chrono` holds.
pub const MIN_SECS: i64 = -8_334_601_228_800;

/// The second at which year 262142 ends, the latest that `chrono` holds.
pub const MAX_SECS: i64 = 8_210_266_876_799;

/// The largest number of seconds, either way, that `chrono` takes as a
/// duration.
pub const MAX_SHIFT: i64 = 9_223_372_036_854_775;

/// A point in time: the seconds since 1970-01-01 00:00:00, leap seconds not
/// counted, and the nanoseconds since that second. Nanoseconds from
/// 1,000,000,000 on stand for a leap second, written `:60`.
#[derive(Clone, Copy, Debug, PartialEq, Eq, Structural)]
pub struct Instant {
    pub secs: i64,
    pub nanos: u32,
}

impl Instant {
    /// Whether `chrono` can hold this point.
    pub open spec fn representable(self) -> bool {
        &&& MIN_SECS <= self.secs <= MAX_SECS
        &&& self.nanos < 1_000_000_000 || (self.nanos < 2_000_000_000 && self.secs % 60 == 59)
    }

    /// The point `seconds` later, or earlier where `seconds` is negative;
    /// `None` where that leaves the range. A leap second ends as soon as the
    /// point moves, and counts as one second on the way back.
    pub open spec fn plus(self, seconds: int) -> Option<Instant> {
        let secs = if self.nanos >= 1_000_000_000 && seconds < 0 {
            self.secs + 1 + seconds
        } else {
            self.secs + seconds
        };
        let nanos = if self.nanos >= 1_000_000_000 && seconds != 0 {
            self.nanos - 1_000_000_000
        } else {
            self.nanos as int
        };
        if MIN_SECS <= secs <= MAX_SECS {
            Some(Instant { secs: secs as i64, nanos: nanos as u32 })
        } else {
            None
        }
    }
}

/// What `chrono` reads `text` as under `layout`; `None` where it rejects the
/// text.
pub uninterp spec fn parsed_instant(text: Seq<char>, layout: Seq<char>) -> Option<Instant>;

/// What `chrono` writes for `at` under `layout`.
pub uninterp spec fn instant_text(at: Instant, layout: Seq<char>) -> Seq<char>;

/// The whole seconds that `chrono` counts from `earlier` to `later`.
pub uninterp spec fn elapsed_seconds(later: Instant, earlier: Instant) -> i64;

/// `chrono::NaiveDateTime::parse_from_str`: reads `text` under the timetable
/// layout. The result depends on the two strings alone, and a point that
/// comes back is one that `chrono` holds.
#[verifier::external_body]
fn read_instant(text: &str, layout: &str) -> (read: Option<Instant>)
    requires
        layout@ == TIME_LAYOUT@,
    ensures
        read == parsed_instant(text@, layout@),
        read matches Some(at) ==> at.representable(),
{
    match chrono::NaiveDateTime::parse_from_str(text, layout) {
        Ok(t) => Some(
            Instant { secs: t.and_utc().timestamp(), nanos: t.and_utc().timestamp_subsec_nanos() },
        ),
        Err(_) => None,
    }
}

/// `chrono::NaiveDateTime::format`: writes `at` under the timetable layout.
/// The result depends on the point and the layout alone. The layout writes
/// year, month, day, hour, minute and second, with a sign before a year of
/// more than four digits, and `parse_from_str` reads each of them back: what
/// is written for a point on a whole second is read as that point.
#[verifier::external_body]
fn write_instant(at: Instant, layout: &str) -> (text: String)
    requires
        at.representable(),
        layout@ == TIME_LAYOUT@,
    ensures
        text@ == instant_text(at, layout@),
        at.nanos == 0 ==> parsed_instant(text@, layout@) == Some(at),
{
    let t = chrono::DateTime::from_timestamp(at.secs, at.nanos).unwrap().naive_utc();
    t.format(layout).to_string()
}

/// `chrono::NaiveDateTime::checked_add_signed`: moves `at` by a whole number
/// of seconds. The sum of the seconds is taken; the result is `None` where
/// its date lies outside the years that `chrono` holds.
#[verifier::external_body]
fn move_instant(at: Instant, seconds: i64) -> (moved: Option<Instant>)
    requires
        at.representable(),
        -MAX_SHIFT <= seconds <= MAX_SHIFT,
    ensures
        moved == at.plus(seconds as int),
{
    let t = chrono::DateTime::from_timestamp(at.secs, at.nanos).unwrap().naive_utc();
    match t.checked_add_signed(chrono::TimeDelta::seconds(seconds)) {
        Some(m) => Some(
            Instant { secs: m.and_utc().timestamp(), nanos: m.and_utc().timestamp_subsec_nanos() },
        ),
        None => None,
    }
}

/// `chrono::NaiveDateTime::signed_duration_since`: the whole seconds from
/// `earlier` to `later`. Between two points on whole seconds that is the
/// difference of their seconds.
#[verifier::external_body]
fn count_seconds(later: Instant, earlier: Instant) -> (seconds: i64)
    requires
        later.representable(),
        earlier.representable(),
    ensures
        seconds == elapsed_seconds(later, earlier),
        later.nanos == 0 && earlier.nanos == 0 ==> seconds == later.secs - earlier.secs,
{
    let a = chrono::DateTime::from_timestamp(later.secs, later.nanos).unwrap().naive_utc();
    let b = chrono::DateTime::from_timestamp(earlier.secs, earlier.nanos).unwrap().naive_utc();
    a.signed_duration_since(b).num_seconds()
}

/// Reads a point in time written as `YYYY-MM-DD HH:MM:SS`.
pub fn parse_time(text: &str) -> (read: Option<Instant>)
    ensures
        read == parsed_instant(text@, TIME_LAYOUT@),
        read matches Some(at) ==> at.representable(),
{
    read_instant(text, TIME_LAYOUT)
}

impl Instant {
    /// Whether `chrono` can hold this point.
    pub fn is_representable(&self) -> (held: bool)
        ensures
            held == self.representable(),
    {
        if self.secs < MIN_SECS || self.secs > MAX_SECS {
            return false;
        }
        let since_first: i64 = self.secs - MIN_SECS;
        self.nanos < 1_000_000_000 || (self.nanos < 2_000_000_000 && since_first % 60 == 59)
    }

    /// Writes the point as `YYYY-MM-DD HH:MM:SS`. A point on a whole second
    /// is read back from its text by `parse_time`.
    pub fn to_text(&self) -> (text: String)
        requires
            self.representable(),
        ensures
            text@ == instant_text(*self, TIME_LAYOUT@),
            self.nanos == 0 ==> parsed_instant(text@, TIME_LAYOUT@) == Some(*self),
    {
        write_instant(*self, TIME_LAYOUT)
    }

    /// The point `seconds` later, or earlier where `seconds` is negative.
    pub fn shifted(&self, seconds: i64) -> (moved: Option<Instant>)
        requires
            self.representable(),
        ensures
            moved == self.plus(seconds as int),
            moved matches Some(m) ==> m.representable(),
    {
        if seconds < -MAX_SHIFT || seconds > MAX_SHIFT {
            None
        } else {
            move_instant(*self, seconds)
        }
    }

    /// The whole seconds from `earlier` to this point.
    pub fn seconds_since(&self, earlier: &Instant) -> (seconds: i64)
        requires
            self.representable(),
            earlier.representable(),
        ensures
            seconds == elapsed_seconds(*self, *earlier),
            self.nanos == 0 && earlier.nanos == 0 ==> seconds == self.secs - earlier.secs,
    {
        count_seconds(*self, *earlier)
    }
}

/// Moving a point by `a` and then by `b` seconds, neither negative, ends
/// where moving it by `a + b` does, and fails where that fails.
pub proof fn law_shift_adds_up(at: Instant, a: nat, b: nat)
    requires
        at.representable(),
    ensures
        match at.plus(a as int) {
            Some(mid) => mid.plus(b as int) == at.plus((a + b) as int),
            None => at.plus((a + b) as int).is_none(),
        },
{
}

/// A point on a whole second that was moved lies that many seconds from
/// where it was.
pub proof fn law_shift_is_elapsed(at: Instant, seconds: int)
    requires
        at.representable(),
        at.nanos == 0,
    ensures
        at.plus(seconds) matches Some(moved) ==> moved.nanos == 0 && moved.secs - at.secs
            == seconds,
{
}

} // verus!
