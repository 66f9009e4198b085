//! Civil (local) calendar timestamps with minute precision, in the
//! proleptic Gregorian calendar, together with the calendar arithmetic
//! the recurrence rules need: day/month/year advances and a linear
//! minute count used for ordering and duration arithmetic.

use vstd::prelude::*;

verus! {

/// Largest year the library represents (four-digit civil dates).
pub const MAX_YEAR: u16 = 9999;

/// A civil calendar timestamp: year, month, day, hour, minute.
#[derive(Clone, Copy, Debug, PartialEq, Eq, Structural)]
pub struct DateTime {
    pub year: u16,
    pub month: u8,
    pub day: u8,
    pub hour: u8,
    pub minute: u8,
}

pub open spec fn is_leap_year(y: int) -> bool {
    y % 4 == 0 && (y % 100 != 0 || y % 400 == 0)
}

pub open spec fn days_in_month(y: int, m: int) -> int {
    if m == 2 {
        if is_leap_year(y) {
            29
        } else {
            28
        }
    } else if m == 4 || m == 6 || m == 9 || m == 11 {
        30
    } else {
        31
    }
}

pub open spec fn days_in_year(y: int) -> int {
    if is_leap_year(y) {
        366
    } else {
        365
    }
}

/// Days in all years from 1 up to, not including, `y`.
pub open spec fn days_before_year(y: int) -> int
    decreases y,
{
    if y <= 1 {
        0
    } else {
        days_before_year(y - 1) + days_in_year(y - 1)
    }
}

/// Days in the months of year `y` before month `m`.
pub open spec fn days_before_month(y: int, m: int) -> int
    decreases m,
{
    if m <= 1 {
        0
    } else {
        days_before_month(y, m - 1) + days_in_month(y, m - 1)
    }
}

/// Day number in the proleptic Gregorian calendar; 0001-01-01 is day 0,
/// which is a Monday.
pub open spec fn day_number(y: int, m: int, d: int) -> int {
    days_before_year(y) + days_before_month(y, m) + d - 1
}

impl DateTime {
    pub open spec fn valid(self) -> bool {
        1 <= self.year <= MAX_YEAR && 1 <= self.month <= 12 && 1 <= self.day
            <= days_in_month(self.year as int, self.month as int) && self.hour <= 23 && self.minute
            <= 59
    }

    /// The date as a day number (see `day_number`).
    pub open spec fn day_num(self) -> int {
        day_number(self.year as int, self.month as int, self.day as int)
    }

    /// The timestamp as a count of minutes from 0001-01-01 00:00.
    pub open spec fn minutes(self) -> int {
        self.day_num() * 1440 + self.hour as int * 60 + self.minute as int
    }
}

/// The day number of the last representable date, 9999-12-31.
pub open spec fn max_day_num() -> int {
    day_number(MAX_YEAR as int, 12, 31)
}

/// The minute count of the last representable timestamp, 9999-12-31 23:59.
pub open spec fn max_minutes() -> int {
    max_day_num() * 1440 + 23 * 60 + 59
}

/// The months of a year sum to its day count.
pub proof fn lemma_days_before_month_full(y: int)
    ensures
        days_before_month(y, 13) == days_in_year(y),
{
    reveal_with_fuel(days_before_month, 13);
}

/// `days_before_month` grows by at least one month's days per month step.
pub proof fn lemma_days_before_month_monotone(y: int, m1: int, m2: int)
    requires
        1 <= m1 <= m2 <= 13,
    ensures
        days_before_month(y, m2) >= days_before_month(y, m1),
        m1 < m2 ==> days_before_month(y, m2) >= days_before_month(y, m1) + days_in_month(y, m1),
    decreases m2,
{
    if m1 < m2 {
        lemma_days_before_month_monotone(y, m1, m2 - 1);
    }
}

/// Day numbers of valid dates in year `y` lie between the year's bounds.
pub proof fn lemma_day_number_in_year(y: int, m: int, d: int)
    requires
        1 <= m <= 12,
        1 <= d <= days_in_month(y, m),
    ensures
        days_before_year(y) <= day_number(y, m, d),
        day_number(y, m, d) < days_before_year(y) + days_in_year(y),
{
    lemma_days_before_month_monotone(y, 1, m);
    lemma_days_before_month_monotone(y, m, 13);
    lemma_days_before_month_full(y);
}

/// `days_before_year` grows by at least 365 per year, at most 366.
pub proof fn lemma_days_before_year_monotone(y1: int, y2: int)
    requires
        y1 <= y2,
    ensures
        days_before_year(y2) >= days_before_year(y1) + 365 * (y2 - y1) || y1 < 1,
        days_before_year(y2) >= days_before_year(y1),
        1 <= y1 ==> days_before_year(y2) <= days_before_year(y1) + 366 * (y2 - y1),
    decreases y2 - y1,
{
    if y1 < y2 {
        lemma_days_before_year_monotone(y1, y2 - 1);
    }
}

/// Lexicographic order on (year, month, day) agrees with day numbers.
pub proof fn lemma_day_number_lex(y1: int, m1: int, d1: int, y2: int, m2: int, d2: int)
    requires
        1 <= m1 <= 12,
        1 <= d1 <= days_in_month(y1, m1),
        1 <= m2 <= 12,
        1 <= d2 <= days_in_month(y2, m2),
        1 <= y1,
        y1 < y2 || (y1 == y2 && m1 < m2) || (y1 == y2 && m1 == m2 && d1 < d2),
    ensures
        day_number(y1, m1, d1) < day_number(y2, m2, d2),
{
    if y1 < y2 {
        lemma_day_number_in_year(y1, m1, d1);
        lemma_day_number_in_year(y2, m2, d2);
        lemma_days_before_year_monotone(y1 + 1, y2);
    } else if m1 < m2 {
        lemma_days_before_month_monotone(y1, m1, m2);
    }
}

/// Distinct valid timestamps have distinct minute counts.
pub proof fn lemma_minutes_injective(a: DateTime, b: DateTime)
    requires
        a.valid(),
        b.valid(),
        a.minutes() == b.minutes(),
    ensures
        a == b,
{
    if a.day_num() != b.day_num() {
        assert(false);
    }
    if (a.year, a.month, a.day) != (b.year, b.month, b.day) {
        if a.year < b.year || (a.year == b.year && a.month < b.month) || (a.year == b.year
            && a.month == b.month && a.day < b.day) {
            lemma_day_number_lex(
                a.year as int,
                a.month as int,
                a.day as int,
                b.year as int,
                b.month as int,
                b.day as int,
            );
        } else {
            lemma_day_number_lex(
                b.year as int,
                b.month as int,
                b.day as int,
                a.year as int,
                a.month as int,
                a.day as int,
            );
        }
    }
}

/// Day numbers of valid dates fit comfortably below 2^22.
pub proof fn lemma_day_num_bounds(dt: DateTime)
    requires
        dt.valid(),
    ensures
        0 <= dt.day_num() <= 366 * 9999,
        0 <= dt.minutes() <= 366 * 9999 * 1440 + 1439,
{
    lemma_day_number_in_year(dt.year as int, dt.month as int, dt.day as int);
    lemma_days_before_year_monotone(1, dt.year as int);
    lemma_days_before_year_monotone(dt.year as int, dt.year as int + 1);
    lemma_days_before_year_monotone(1, dt.year as int + 1);
}

/// No valid date lies past 9999-12-31.
pub proof fn lemma_day_num_le_max(dt: DateTime)
    requires
        dt.valid(),
    ensures
        0 <= dt.day_num() <= max_day_num(),
        0 <= dt.minutes() <= max_minutes(),
{
    lemma_day_num_bounds(dt);
    if !(dt.year == MAX_YEAR && dt.month == 12 && dt.day == 31) {
        lemma_day_number_lex(
            dt.year as int,
            dt.month as int,
            dt.day as int,
            MAX_YEAR as int,
            12,
            31,
        );
    }
}

/// The calendar day after the date of `s`, keeping the time of day.  Past
/// the last representable date the result is not valid.
pub open spec fn spec_next_day(s: DateTime) -> DateTime {
    if s.day < days_in_month(s.year as int, s.month as int) {
        DateTime { day: (s.day + 1) as u8, ..s }
    } else if s.month < 12 {
        DateTime { month: (s.month + 1) as u8, day: 1, ..s }
    } else {
        DateTime { year: (s.year + 1) as u16, month: 1, day: 1, ..s }
    }
}

/// The date `n` days after `s`, keeping the time of day.
pub open spec fn spec_plus_days(s: DateTime, n: int) -> DateTime
    decreases n,
{
    if n <= 0 {
        s
    } else {
        spec_next_day(spec_plus_days(s, n - 1))
    }
}

pub proof fn lemma_spec_next_day(s: DateTime)
    requires
        s.valid(),
        s.day_num() < max_day_num(),
    ensures
        spec_next_day(s).valid(),
        spec_next_day(s).day_num() == s.day_num() + 1,
        spec_next_day(s).minutes() == s.minutes() + 1440,
        spec_next_day(s).hour == s.hour && spec_next_day(s).minute == s.minute,
{
    if s.day < days_in_month(s.year as int, s.month as int) {
    } else if s.month < 12 {
        lemma_days_before_month_monotone(s.year as int, s.month as int, s.month as int + 1);
    } else {
        lemma_days_before_month_full(s.year as int);
        lemma_days_before_month_monotone(s.year as int, 12, 13);
        if s.year == MAX_YEAR {
            assert(s.day_num() == max_day_num());
        }
    }
}

pub proof fn lemma_spec_plus_days(s: DateTime, n: int)
    requires
        s.valid(),
        0 <= n,
        s.day_num() + n <= max_day_num(),
    ensures
        spec_plus_days(s, n).valid(),
        spec_plus_days(s, n).day_num() == s.day_num() + n,
        spec_plus_days(s, n).minutes() == s.minutes() + 1440 * n,
        spec_plus_days(s, n).hour == s.hour && spec_plus_days(s, n).minute == s.minute,
    decreases n,
{
    if n > 0 {
        lemma_spec_plus_days(s, n - 1);
        lemma_spec_next_day(spec_plus_days(s, n - 1));
    }
}

/// The valid timestamp with the given minute count.
pub open spec fn from_minutes(t: int) -> DateTime {
    choose|d: DateTime| d.valid() && d.minutes() == t
}

/// Every day number up to the last representable one is the day number of
/// a valid midnight date.
proof fn lemma_date_exists(d: int)
    requires
        0 <= d <= max_day_num(),
    ensures
        exists|dt: DateTime|
            dt.valid() && dt.hour == 0 && dt.minute == 0 && (#[trigger] dt.day_num()) == d,
    decreases d,
{
    if d == 0 {
        let w = DateTime { year: 1, month: 1, day: 1, hour: 0, minute: 0 };
        assert(w.valid() && w.day_num() == 0);
    } else {
        lemma_date_exists(d - 1);
        let w = choose|dt: DateTime|
            dt.valid() && dt.hour == 0 && dt.minute == 0 && (#[trigger] dt.day_num()) == d - 1;
        lemma_spec_next_day(w);
        let n = spec_next_day(w);
        assert(n.valid() && n.hour == 0 && n.minute == 0 && n.day_num() == d);
    }
}

/// `from_minutes` is well defined on every representable minute count.
pub proof fn lemma_from_minutes(t: int)
    requires
        0 <= t <= max_minutes(),
    ensures
        from_minutes(t).valid(),
        from_minutes(t).minutes() == t,
{
    let d = t / 1440;
    let rem = t % 1440;
    vstd::arithmetic::div_mod::lemma_fundamental_div_mod(t, 1440);
    vstd::arithmetic::div_mod::lemma_mod_pos_bound(t, 1440);
    vstd::arithmetic::div_mod::lemma_fundamental_div_mod_converse(
        max_day_num() * 1440 + 1439,
        1440,
        max_day_num(),
        1439,
    );
    vstd::arithmetic::div_mod::lemma_div_is_ordered(t, max_day_num() * 1440 + 1439, 1440);
    lemma_date_exists(d);
    let w = choose|dt: DateTime|
        dt.valid() && dt.hour == 0 && dt.minute == 0 && (#[trigger] dt.day_num()) == d;
    vstd::arithmetic::div_mod::lemma_fundamental_div_mod(rem, 60);
    vstd::arithmetic::div_mod::lemma_mod_pos_bound(rem, 60);
    let dt = DateTime { hour: (rem / 60) as u8, minute: (rem % 60) as u8, ..w };
    assert(dt.valid() && dt.minutes() == t);
    assert(from_minutes(t).valid() && from_minutes(t).minutes() == t);
}

pub fn leap_year(y: u16) -> (r: bool)
    ensures
        r == is_leap_year(y as int),
{
    y % 4 == 0 && (y % 100 != 0 || y % 400 == 0)
}

pub fn month_days(y: u16, m: u8) -> (r: u8)
    requires
        1 <= m <= 12,
    ensures
        r as int == days_in_month(y as int, m as int),
{
    if m == 2 {
        if leap_year(y) {
            29
        } else {
            28
        }
    } else if m == 4 || m == 6 || m == 9 || m == 11 {
        30
    } else {
        31
    }
}

impl DateTime {
    /// The day number of this timestamp's date, computed by summing
    /// whole years and then whole months.
    pub fn to_days(&self) -> (r: u64)
        requires
            self.valid(),
        ensures
            r as int == self.day_num(),
    {
        proof {
            lemma_day_num_bounds(*self);
        }
        let mut days: u64 = 0;
        let mut yy: u16 = 1;
        while yy < self.year
            invariant
                1 <= yy <= self.year,
                self.valid(),
                days == days_before_year(yy as int),
                days <= 366 * (yy as int - 1),
            decreases self.year - yy,
        {
            days = days + if leap_year(yy) {
                366
            } else {
                365
            };
            yy = yy + 1;
        }
        let mut mm: u8 = 1;
        while mm < self.month
            invariant
                1 <= mm <= self.month,
                self.valid(),
                days == days_before_year(self.year as int) + days_before_month(
                    self.year as int,
                    mm as int,
                ),
                days <= 366 * (self.year as int - 1) + 31 * (mm as int - 1),
            decreases self.month - mm,
        {
            days = days + month_days(self.year, mm) as u64;
            mm = mm + 1;
        }
        days + self.day as u64 - 1
    }

    /// The timestamp as minutes from 0001-01-01 00:00.
    pub fn to_minutes(&self) -> (r: u64)
        requires
            self.valid(),
        ensures
            r as int == self.minutes(),
    {
        proof {
            lemma_day_num_bounds(*self);
        }
        self.to_days() * 1440 + self.hour as u64 * 60 + self.minute as u64
    }

    /// Order by time: at or before `other`.
    pub fn le(&self, other: &DateTime) -> (r: bool)
        requires
            self.valid(),
            other.valid(),
        ensures
            r == (self.minutes() <= other.minutes()),
    {
        self.to_minutes() <= other.to_minutes()
    }

    /// The same moment one calendar day later, keeping the time of day.
    /// `None` only past the last representable date.
    pub fn next_day(self) -> (r: Option<DateTime>)
        requires
            self.valid(),
        ensures
            match r {
                Some(d) => d.valid() && d.minutes() == self.minutes() + 1440 && d.hour == self.hour
                    && d.minute == self.minute,
                None => self.day_num() == max_day_num(),
            },
    {
        let dim = month_days(self.year, self.month);
        if self.day < dim {
            Some(DateTime { day: self.day + 1, ..self })
        } else if self.month < 12 {
            let d = DateTime { month: self.month + 1, day: 1, ..self };
            proof {
                lemma_days_before_month_monotone(self.year as int, self.month as int, self.month as int + 1);
            }
            Some(d)
        } else if self.year < MAX_YEAR {
            let d = DateTime { year: self.year + 1, month: 1, day: 1, ..self };
            proof {
                lemma_days_before_month_full(self.year as int);
                lemma_days_before_month_monotone(self.year as int, 12, 13);
            }
            Some(d)
        } else {
            proof {
                lemma_days_before_month_full(self.year as int);
                lemma_days_before_month_monotone(self.year as int, 12, 13);
            }
            None
        }
    }

    /// The same moment `n` calendar days later, keeping the time of day.
    /// `None` when the result would pass the last representable date.
    pub fn add_days(self, n: u64) -> (r: Option<DateTime>)
        requires
            self.valid(),
        ensures
            match r {
                Some(d) => d.valid() && d.minutes() == self.minutes() + 1440 * n && d.hour
                    == self.hour && d.minute == self.minute,
                None => self.day_num() + n > max_day_num(),
            },
    {
        let mut cur = self;
        let mut left: u64 = n;
        loop
            invariant
                cur.valid(),
                left <= n,
                cur.hour == self.hour && cur.minute == self.minute,
                cur.minutes() == self.minutes() + 1440 * (n - left),
            decreases left,
        {
            if left == 0 {
                return Some(cur);
            }
            match cur.next_day() {
                Some(d) => {
                    cur = d;
                    left = left - 1;
                },
                None => {
                    proof {
                        lemma_day_num_bounds(cur);
                    }
                    return None;
                },
            }
        }
    }

    /// The moment `m` minutes later.  `None` when the result would pass
    /// the last representable timestamp.
    pub fn add_minutes(self, m: u64) -> (r: Option<DateTime>)
        requires
            self.valid(),
        ensures
            match r {
                Some(d) => d.valid() && d.minutes() == self.minutes() + m,
                None => self.minutes() + m > max_minutes(),
            },
    {
        proof {
            lemma_day_num_bounds(self);
        }
        if m > u64::MAX - 1439 {
            // Larger than any representable span of minutes.
            proof {
                lemma_day_num_bounds(
                    DateTime { year: MAX_YEAR, month: 12, day: 31, hour: 23, minute: 59 },
                );
            }
            return None;
        }
        let total: u64 = self.hour as u64 * 60 + self.minute as u64 + m;
        let whole_days: u64 = total / 1440;
        let rest: u64 = total % 1440;
        let base = DateTime { hour: 0, minute: 0, ..self };
        match base.add_days(whole_days) {
            Some(d) => {
                let out = DateTime { hour: (rest / 60) as u8, minute: (rest % 60) as u8, ..d };
                Some(out)
            },
            None => {
                proof {
                    lemma_day_num_bounds(
                        DateTime { year: MAX_YEAR, month: 12, day: 31, hour: 23, minute: 59 },
                    );
                }
                None
            },
        }
    }

    /// The same moment one calendar day earlier, keeping the time of day.
    /// `None` only before the first representable date.
    pub fn prev_day(self) -> (r: Option<DateTime>)
        requires
            self.valid(),
        ensures
            match r {
                Some(d) => d.valid() && d.minutes() + 1440 == self.minutes() && d.hour == self.hour
                    && d.minute == self.minute,
                None => self.day_num() == 0,
            },
    {
        if self.day > 1 {
            Some(DateTime { day: self.day - 1, ..self })
        } else if self.month > 1 {
            let dim = month_days(self.year, self.month - 1);
            let d = DateTime { month: self.month - 1, day: dim, ..self };
            proof {
                lemma_days_before_month_monotone(
                    self.year as int,
                    self.month as int - 1,
                    self.month as int,
                );
            }
            Some(d)
        } else if self.year > 1 {
            let d = DateTime { year: self.year - 1, month: 12, day: month_days(self.year - 1, 12), ..self };
            proof {
                lemma_days_before_month_full(self.year as int - 1);
                lemma_days_before_month_monotone(self.year as int - 1, 12, 13);
            }
            Some(d)
        } else {
            None
        }
    }

    /// The same moment `n` calendar days earlier, keeping the time of
    /// day.  `None` when the result would precede the first representable
    /// date.
    pub fn sub_days(self, n: u64) -> (r: Option<DateTime>)
        requires
            self.valid(),
        ensures
            match r {
                Some(d) => d.valid() && d.minutes() + 1440 * n == self.minutes() && d.hour
                    == self.hour && d.minute == self.minute,
                None => self.day_num() < n,
            },
    {
        let mut cur = self;
        let mut left: u64 = n;
        loop
            invariant
                cur.valid(),
                left <= n,
                cur.hour == self.hour && cur.minute == self.minute,
                cur.minutes() + 1440 * (n - left) == self.minutes(),
            decreases left,
        {
            if left == 0 {
                return Some(cur);
            }
            match cur.prev_day() {
                Some(d) => {
                    cur = d;
                    left = left - 1;
                },
                None => {
                    proof {
                        lemma_day_num_bounds(cur);
                    }
                    return None;
                },
            }
        }
    }

    /// One calendar month later, preserving the day of the month and the
    /// time of day.  `None` when the target month has no such day or the
    /// result would pass the last representable date: recurrence
    /// generation halts there rather than clamping or skipping.
    pub fn next_month(self) -> (r: Option<DateTime>)
        requires
            self.valid(),
        ensures
            match r {
                Some(d) => d.valid() && d.minutes() > self.minutes() && d.day == self.day && d.hour
                    == self.hour && d.minute == self.minute && (if self.month < 12 {
                    d.year == self.year && d.month == self.month + 1
                } else {
                    d.year == self.year + 1 && d.month == 1
                }),
                None => (self.month == 12 && self.year == MAX_YEAR) || ({
                    let ny: int = if self.month < 12 {
                        self.year as int
                    } else {
                        self.year as int + 1
                    };
                    let nm: int = if self.month < 12 {
                        self.month as int + 1
                    } else {
                        1
                    };
                    self.day > days_in_month(ny, nm)
                }),
            },
    {
        let (ny, nm): (u16, u8) = if self.month < 12 {
            (self.year, self.month + 1)
        } else {
            if self.year == MAX_YEAR {
                return None;
            }
            (self.year + 1, 1u8)
        };
        if self.day > month_days(ny, nm) {
            return None;
        }
        let d = DateTime { year: ny, month: nm, ..self };
        proof {
            lemma_day_number_lex(
                self.year as int,
                self.month as int,
                self.day as int,
                ny as int,
                nm as int,
                self.day as int,
            );
        }
        Some(d)
    }

    /// One calendar year later, preserving month, day and time.  `None`
    /// when the day does not exist in the target year (a leap day) or the
    /// result would pass the last representable date.
    pub fn next_year(self) -> (r: Option<DateTime>)
        requires
            self.valid(),
        ensures
            match r {
                Some(d) => d.valid() && d.minutes() > self.minutes() && d.year == self.year + 1
                    && d.month == self.month && d.day == self.day && d.hour == self.hour && d.minute
                    == self.minute,
                None => self.year == MAX_YEAR || self.day > days_in_month(
                    self.year as int + 1,
                    self.month as int,
                ),
            },
    {
        if self.year == MAX_YEAR {
            return None;
        }
        if self.day > month_days(self.year + 1, self.month) {
            return None;
        }
        let d = DateTime { year: self.year + 1, ..self };
        proof {
            lemma_day_number_lex(
                self.year as int,
                self.month as int,
                self.day as int,
                self.year as int + 1,
                self.month as int,
                self.day as int,
            );
        }
        Some(d)
    }
}

} // verus!
