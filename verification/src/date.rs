//! A calendar date with a time of day, to the second.
//!
//! A `Datetime` holds six small numbers. What they mean is said twice: by
//! the step from one second to the next, which defines adding seconds, and
//! by a count of the seconds since the start of year 0, which defines the
//! difference of two values. The two agree, which is proved below. How a
//! value is written and read is said in `date_text`.

use vstd::prelude::*;

verus! {

/// A date in the proleptic Gregorian calendar and a time of day.
#[derive(Debug, Clone, Copy, Default, PartialEq, Eq, PartialOrd, Ord, Hash, Structural)]
pub struct Datetime {
    pub year: u16,
    pub month: u8,
    pub day: u8,
    pub hour: u8,
    pub minute: u8,
    pub second: u8,
}

/// What a `Datetime` is in contracts: the same six numbers, unbounded.
pub struct Moment {
    pub year: int,
    pub month: int,
    pub day: int,
    pub hour: int,
    pub minute: int,
    pub second: int,
}

/// Whether `year` has a 29th of February.
pub open spec fn is_leap(year: int) -> bool {
    year % 4 == 0 && (year % 100 != 0 || year % 400 == 0)
}

/// The number of days of a year.
pub open spec fn year_length(year: int) -> int {
    if is_leap(year) {
        366
    } else {
        365
    }
}

/// The number of days of a month; 0 for a number that names no month.
pub open spec fn days_in_month(year: int, month: int) -> int {
    if month == 2 {
        if is_leap(year) {
            29
        } else {
            28
        }
    } else if month == 4 || month == 6 || month == 9 || month == 11 {
        30
    } else if 1 <= month <= 12 {
        31
    } else {
        0
    }
}

/// The number of days of `year` that lie before its month `month`.
pub open spec fn days_before_month(year: int, month: int) -> int
    decreases month,
{
    if month <= 1 {
        0
    } else {
        days_before_month(year, month - 1) + days_in_month(year, month - 1)
    }
}

/// The number of days from the start of year 0 to the start of `year`,
/// for a year that is not negative.
pub open spec fn days_before_year(year: int) -> int {
    365 * year + (year + 3) / 4 - (year + 99) / 100 + (year + 399) / 400
}

impl Moment {
    /// Whether the numbers name a day of the calendar and a second of it.
    pub open spec fn valid(self) -> bool {
        &&& 0 <= self.year
        &&& 1 <= self.month <= 12
        &&& 1 <= self.day <= days_in_month(self.year, self.month)
        &&& 0 <= self.hour < 24
        &&& 0 <= self.minute < 60
        &&& 0 <= self.second < 60
    }

    /// The day after, at the same time of day.
    pub open spec fn next_day(self) -> Moment {
        if self.day < days_in_month(self.year, self.month) {
            Moment { day: self.day + 1, ..self }
        } else if self.month < 12 {
            Moment { month: self.month + 1, day: 1, ..self }
        } else {
            Moment { year: self.year + 1, month: 1, day: 1, ..self }
        }
    }

    /// The second after.
    pub open spec fn next_second(self) -> Moment {
        if self.second < 59 {
            Moment { second: self.second + 1, ..self }
        } else if self.minute < 59 {
            Moment { minute: self.minute + 1, second: 0, ..self }
        } else if self.hour < 23 {
            Moment { hour: self.hour + 1, minute: 0, second: 0, ..self }
        } else {
            Moment { hour: 0, minute: 0, second: 0, ..self.next_day() }
        }
    }

    /// The moment `seconds` seconds after: that many times the second after.
    pub open spec fn plus_seconds(self, seconds: nat) -> Moment
        decreases seconds,
    {
        if seconds == 0 {
            self
        } else {
            self.plus_seconds((seconds - 1) as nat).next_second()
        }
    }

    /// The number of days from the first day of year 0 to the day of the
    /// moment.
    pub open spec fn day_count(self) -> int {
        days_before_year(self.year) + days_before_month(self.year, self.month) + self.day - 1
    }

    /// The number of seconds from the start of year 0 to the moment.
    pub open spec fn second_count(self) -> int {
        self.day_count() * 86400 + self.hour * 3600 + self.minute * 60 + self.second
    }
}

impl View for Datetime {
    type V = Moment;

    open spec fn view(&self) -> Moment {
        Moment {
            year: self.year as int,
            month: self.month as int,
            day: self.day as int,
            hour: self.hour as int,
            minute: self.minute as int,
            second: self.second as int,
        }
    }
}

/// The days before each month, month by month.
pub proof fn lemma_days_before_month(year: int)
    ensures
        days_before_month(year, 1) == 0,
        days_before_month(year, 2) == 31,
        days_before_month(year, 3) == 59 + year_length(year) - 365,
        days_before_month(year, 4) == 90 + year_length(year) - 365,
        days_before_month(year, 5) == 120 + year_length(year) - 365,
        days_before_month(year, 6) == 151 + year_length(year) - 365,
        days_before_month(year, 7) == 181 + year_length(year) - 365,
        days_before_month(year, 8) == 212 + year_length(year) - 365,
        days_before_month(year, 9) == 243 + year_length(year) - 365,
        days_before_month(year, 10) == 273 + year_length(year) - 365,
        days_before_month(year, 11) == 304 + year_length(year) - 365,
        days_before_month(year, 12) == 334 + year_length(year) - 365,
        days_before_month(year, 13) == year_length(year),
{
    reveal_with_fuel(days_before_month, 14);
}

/// Whether one more multiple of `4` lies below `year + 1` than below `year`.
proof fn lemma_step_4(year: int)
    requires
        0 <= year,
    ensures
        (year + 4) / 4 - (year + 3) / 4 == if year % 4 == 0 {
            1int
        } else {
            0int
        },
{
}

/// Whether one more multiple of `100` lies below `year + 1` than below
/// `year`.
proof fn lemma_step_100(year: int)
    requires
        0 <= year,
    ensures
        (year + 100) / 100 - (year + 99) / 100 == if year % 100 == 0 {
            1int
        } else {
            0int
        },
{
}

/// Whether one more multiple of `400` lies below `year + 1` than below
/// `year`.
proof fn lemma_step_400(year: int)
    requires
        0 <= year,
    ensures
        (year + 400) / 400 - (year + 399) / 400 == if year % 400 == 0 {
            1int
        } else {
            0int
        },
{
}

/// A year whose number 400 divides is one that 100 divides, and that one
/// that 4 divides.
proof fn lemma_leap_rules(year: int)
    requires
        0 <= year,
    ensures
        year % 400 == 0 ==> year % 100 == 0,
        year % 100 == 0 ==> year % 4 == 0,
{
}

/// A year is as long as the step of `days_before_year` over it.
pub proof fn lemma_year_step(year: int)
    requires
        0 <= year,
    ensures
        days_before_year(year + 1) == days_before_year(year) + year_length(year),
{
    lemma_step_4(year);
    lemma_step_100(year);
    lemma_step_400(year);
    lemma_leap_rules(year);
}

/// `days_before_year` grows by at least the length of each year passed.
pub proof fn lemma_years_grow(earlier: int, later: int)
    requires
        0 <= earlier < later,
    ensures
        days_before_year(later) >= days_before_year(earlier) + year_length(earlier),
    decreases later - earlier,
{
    lemma_year_step(earlier);
    if earlier + 1 < later {
        lemma_years_grow(earlier + 1, later);
    }
}

/// The day of a valid moment lies within its year.
pub proof fn lemma_day_in_year(m: Moment)
    requires
        m.valid(),
    ensures
        0 <= days_before_month(m.year, m.month) + m.day - 1 < year_length(m.year),
{
    lemma_days_before_month(m.year);
}

/// The second after a valid moment is valid and counts one more.
pub proof fn lemma_next_second(m: Moment)
    requires
        m.valid(),
    ensures
        m.next_second().valid(),
        m.next_second().second_count() == m.second_count() + 1,
{
    lemma_days_before_month(m.year);
    lemma_year_step(m.year);
    lemma_days_before_month(m.year + 1);
}

/// Adding seconds to a valid moment gives a valid moment that counts that
/// many more.
pub proof fn lemma_plus_seconds(m: Moment, seconds: nat)
    requires
        m.valid(),
    ensures
        m.plus_seconds(seconds).valid(),
        m.plus_seconds(seconds).second_count() == m.second_count() + seconds,
    decreases seconds,
{
    if seconds > 0 {
        lemma_plus_seconds(m, (seconds - 1) as nat);
        lemma_next_second(m.plus_seconds((seconds - 1) as nat));
    }
}

/// Two valid moments on the same day of the same year are in the same
/// month, on the same day of it.
proof fn lemma_day_is_one_to_one(a: Moment, b: Moment)
    requires
        a.valid(),
        b.valid(),
        a.year == b.year,
        days_before_month(a.year, a.month) + a.day == days_before_month(b.year, b.month) + b.day,
    ensures
        a.month == b.month,
        a.day == b.day,
{
    lemma_days_before_month(a.year);
}

/// Two valid moments with the same day count are in the same year.
proof fn lemma_year_is_one_to_one(a: Moment, b: Moment)
    requires
        a.valid(),
        b.valid(),
        a.day_count() == b.day_count(),
    ensures
        a.year == b.year,
{
    lemma_day_in_year(a);
    lemma_day_in_year(b);
    if a.year < b.year {
        lemma_years_grow(a.year, b.year);
    }
    if b.year < a.year {
        lemma_years_grow(b.year, a.year);
    }
}

/// A count of seconds splits in one way into whole days and a rest of less
/// than a day.
proof fn lemma_days_and_rest(days: int, rest: int, other_days: int, other_rest: int)
    requires
        0 <= rest < 86400,
        0 <= other_rest < 86400,
        days * 86400 + rest == other_days * 86400 + other_rest,
    ensures
        days == other_days,
        rest == other_rest,
{
}

/// The seconds of a day split in one way into hour, minute and second.
proof fn lemma_time_of_day(rest: int, hour: int, minute: int, second: int)
    requires
        0 <= hour < 24,
        0 <= minute < 60,
        0 <= second < 60,
        hour * 3600 + minute * 60 + second == rest,
    ensures
        hour == rest / 3600,
        minute == rest % 3600 / 60,
        second == rest % 60,
{
}

/// Two valid moments with the same count are the same moment.
pub proof fn law_count_is_one_to_one(a: Moment, b: Moment)
    requires
        a.valid(),
        b.valid(),
        a.second_count() == b.second_count(),
    ensures
        a == b,
{
    let rest = a.hour * 3600 + a.minute * 60 + a.second;
    let other = b.hour * 3600 + b.minute * 60 + b.second;
    lemma_days_and_rest(a.day_count(), rest, b.day_count(), other);
    lemma_time_of_day(rest, a.hour, a.minute, a.second);
    lemma_time_of_day(rest, b.hour, b.minute, b.second);
    lemma_year_is_one_to_one(a, b);
    lemma_day_is_one_to_one(a, b);
}

/// Adding `a` and then `b` seconds is adding `a + b` seconds.
pub proof fn law_seconds_add_up(m: Moment, a: nat, b: nat)
    ensures
        m.plus_seconds(a).plus_seconds(b) == m.plus_seconds(a + b),
    decreases b,
{
    if b > 0 {
        law_seconds_add_up(m, a, (b - 1) as nat);
    }
}

/// The seconds counted between a valid moment and the moment some seconds
/// after are those seconds.
pub proof fn law_difference_undoes_addition(m: Moment, seconds: nat)
    requires
        m.valid(),
    ensures
        m.plus_seconds(seconds).second_count() - m.second_count() == seconds,
{
    lemma_plus_seconds(m, seconds);
}

/// Adding seconds left the years that a `Datetime` can hold.
#[derive(Debug, Clone, Copy, PartialEq, Eq, Structural)]
pub struct OverflowError;

/// Whether `year` has a 29th of February.
pub fn is_leap_year(year: u16) -> (leap: bool)
    ensures
        leap == is_leap(year as int),
{
    year % 4 == 0 && (year % 100 != 0 || year % 400 == 0)
}

/// The number of days of a month; 0 for a number that names no month.
pub fn month_length(year: u16, month: u8) -> (days: u8)
    ensures
        days == days_in_month(year as int, month as int),
{
    if month == 2 {
        if is_leap_year(year) {
            29
        } else {
            28
        }
    } else if month == 4 || month == 6 || month == 9 || month == 11 {
        30
    } else if 1 <= month && month <= 12 {
        31
    } else {
        0
    }
}

/// The number of days of `year` that lie before its month `month`.
fn month_offset(year: u16, month: u8) -> (days: u32)
    requires
        1 <= month <= 12,
    ensures
        days == days_before_month(year as int, month as int),
        days <= 335,
{
    proof {
        lemma_days_before_month(year as int);
    }
    let leap: u32 = if is_leap_year(year) {
        1
    } else {
        0
    };
    if month == 1 {
        0
    } else if month == 2 {
        31
    } else if month == 3 {
        59 + leap
    } else if month == 4 {
        90 + leap
    } else if month == 5 {
        120 + leap
    } else if month == 6 {
        151 + leap
    } else if month == 7 {
        181 + leap
    } else if month == 8 {
        212 + leap
    } else if month == 9 {
        243 + leap
    } else if month == 10 {
        273 + leap
    } else if month == 11 {
        304 + leap
    } else {
        334 + leap
    }
}

/// A valid moment that counts at least the seconds before `year` lies in
/// `year` or later.
pub proof fn lemma_year_reached(m: Moment, year: int)
    requires
        m.valid(),
        0 <= year,
        m.day_count() >= days_before_year(year),
    ensures
        m.year >= year,
{
    lemma_day_in_year(m);
    if m.year < year {
        lemma_years_grow(m.year, year);
    }
}

/// The day `days` days after a day of the calendar, or `None` where that
/// day lies beyond year 65535.
fn add_days(year: u16, month: u8, day: u8, days: u32) -> (moved: Option<(u16, u8, u8)>)
    requires
        1 <= month <= 12,
        1 <= day <= days_in_month(year as int, month as int),
    ensures
        match moved {
            Some((y, m, d)) => 1 <= m <= 12 && 1 <= d <= days_in_month(y as int, m as int)
                && days_before_year(y as int) + days_before_month(y as int, m as int) + d
                == days_before_year(year as int) + days_before_month(year as int, month as int)
                + day + days,
            None => days_before_year(year as int) + days_before_month(year as int, month as int)
                + day - 1 + days >= days_before_year(65536),
        },
{
    let ghost goal = days_before_year(year as int) + days_before_month(year as int, month as int)
        + day + days;
    let mut y: u16 = year;
    let mut m: u8 = month;
    let mut d: u8 = day;
    let mut left_over: u32 = days;
    while left_over > 0
        invariant
            1 <= m <= 12,
            1 <= d <= days_in_month(y as int, m as int),
            goal == days_before_year(year as int) + days_before_month(year as int, month as int)
                + day + days,
            days_before_year(y as int) + days_before_month(y as int, m as int) + d + left_over
                == goal,
        decreases left_over,
    {
        let left: u32 = (month_length(y, m) - d) as u32;
        if left_over <= left {
            d = d + left_over as u8;
            left_over = 0;
        } else {
            proof {
                lemma_days_before_month(y as int);
                lemma_year_step(y as int);
            }
            if m == 12 {
                if y == u16::MAX {
                    return None;
                }
                y = y + 1;
                m = 1;
            } else {
                m = m + 1;
            }
            left_over = left_over - (left + 1);
            d = 1;
        }
    }
    Some((y, m, d))
}

impl Datetime {
    /// Whether the numbers name a day of the calendar and a second of it.
    pub fn is_valid(&self) -> (valid: bool)
        ensures
            valid == self@.valid(),
    {
        1 <= self.month && self.month <= 12 && 1 <= self.day && self.day <= month_length(
            self.year,
            self.month,
        ) && self.hour < 24 && self.minute < 60 && self.second < 60
    }

    /// Moves the value `inc` seconds on, through the ends of minutes, hours,
    /// days, months and years. Where that leaves the years up to 65535 the
    /// value stays as it is and the result is an error.
    pub fn inc_seconds(&mut self, inc: u32) -> (result: Result<(), OverflowError>)
        requires
            old(self)@.valid(),
        ensures
            old(self)@.plus_seconds(inc as nat).year <= u16::MAX ==> result is Ok && final(self)@
                == old(self)@.plus_seconds(inc as nat),
            old(self)@.plus_seconds(inc as nat).year > u16::MAX ==> result is Err && *final(self)
                == *old(self),
    {
        let ghost start = self@;
        let ghost target = start.plus_seconds(inc as nat);
        let total: u64 = self.hour as u64 * 3600 + self.minute as u64 * 60 + self.second as u64
            + inc as u64;
        let carry: u64 = total / 86400;
        let rest: u64 = total % 86400;
        proof {
            lemma_plus_seconds(start, inc as nat);
            lemma_days_and_rest(
                target.day_count(),
                target.hour * 3600 + target.minute * 60 + target.second,
                start.day_count() + carry,
                rest as int,
            );
            lemma_time_of_day(rest as int, target.hour, target.minute, target.second);
        }
        match add_days(self.year, self.month, self.day, carry as u32) {
            Some((year, month, day)) => {
                let moved = Datetime {
                    year,
                    month,
                    day,
                    hour: (rest / 3600) as u8,
                    minute: (rest % 3600 / 60) as u8,
                    second: (rest % 60) as u8,
                };
                proof {
                    lemma_year_is_one_to_one(moved@, target);
                    lemma_day_is_one_to_one(moved@, target);
                }
                *self = moved;
                Ok(())
            },
            None => {
                proof {
                    lemma_year_reached(target, 65536);
                }
                Err(OverflowError)
            },
        }
    }

    /// The seconds from `earlier` to this value; negative where this value
    /// is the earlier one.
    pub fn seconds_since(&self, earlier: &Datetime) -> (seconds: i64)
        requires
            self@.valid(),
            earlier@.valid(),
        ensures
            seconds == self@.second_count() - earlier@.second_count(),
    {
        self.count_seconds() - earlier.count_seconds()
    }

    /// The number of seconds from the start of year 0 to the value.
    fn count_seconds(&self) -> (count: i64)
        requires
            self@.valid(),
        ensures
            count == self@.second_count(),
            0 <= count < 2_100_000_000_000,
    {
        let year = self.year as i64;
        let days: i64 = 365 * year + (year + 3) / 4 - (year + 99) / 100 + (year + 399) / 400
            + month_offset(self.year, self.month) as i64 + self.day as i64 - 1;
        days * 86400 + self.hour as i64 * 3600 + self.minute as i64 * 60 + self.second as i64
    }
}

} // verus!
