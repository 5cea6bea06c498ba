//! Dates and times of day for file names.

use crate::text::{law_padded_is_as_long, law_padded_reads_as_the_number, padded, push_padded, reads_as};
use vstd::prelude::*;
use vstd::string::StringExecFns;

verus! {

/// The year has a leap day.
pub open spec fn leap(y: int) -> bool {
    y % 4 == 0 && y % 100 != 0 || y % 400 == 0
}

/// Whether a year has a leap day.
pub fn is_leap(y: u32) -> (r: bool)
    ensures
        r == leap(y as int),
{
    (y % 4 == 0 && y % 100 != 0) || y % 400 == 0
}

/// Days of a year.
pub open spec fn year_days(y: int) -> int {
    if leap(y) {
        366
    } else {
        365
    }
}

/// Days of a month, counted from one.
pub open spec fn month_days(y: int, m: int) -> int {
    if m == 2 {
        if leap(y) {
            29
        } else {
            28
        }
    } else if m == 4 || m == 6 || m == 9 || m == 11 {
        30
    } else {
        31
    }
}

/// Days from the start of 1970 to the start of a year.
pub open spec fn days_to_year(y: int) -> int
    decreases y,
{
    if y <= 1970 {
        0
    } else {
        days_to_year(y - 1) + year_days(y - 1)
    }
}

/// Days from the start of a year to the start of a month.
pub open spec fn days_to_month(y: int, m: int) -> int
    decreases m,
{
    if m <= 1 {
        0
    } else {
        days_to_month(y, m - 1) + month_days(y, m - 1)
    }
}

/// A date and a time of day.
#[derive(Copy, Clone, Debug, PartialEq, Eq, Structural)]
pub struct DateTime {
    pub year: u32,
    pub month: u32,
    pub day: u32,
    pub hour: u32,
    pub minute: u32,
    pub second: u32,
}

impl DateTime {
    /// Every field is in its range.
    pub open spec fn valid(self) -> bool {
        &&& 1970 <= self.year
        &&& 1 <= self.month <= 12
        &&& 1 <= self.day <= month_days(self.year as int, self.month as int)
        &&& self.hour < 24
        &&& self.minute < 60
        &&& self.second < 60
    }

    /// Days since the start of 1970.
    pub open spec fn day_number(self) -> int {
        days_to_year(self.year as int) + days_to_month(self.year as int, self.month as int) + self.day
            - 1
    }

    /// Seconds since the start of 1970.
    pub open spec fn seconds(self) -> int {
        ((self.day_number() * 24 + self.hour) * 60 + self.minute) * 60 + self.second
    }
}

proof fn lemma_year_days(y: int)
    ensures
        days_to_month(y, 13) == year_days(y),
{
    reveal_with_fuel(days_to_month, 14);
}

fn month_length(y: u32, m: u32) -> (r: u32)
    ensures
        r == month_days(y as int, m as int),
{
    if m == 2 {
        if is_leap(y) {
            29
        } else {
            28
        }
    } else if m == 4 || m == 6 || m == 9 || m == 11 {
        30
    } else {
        31
    }
}

/// The moment is so many seconds after the start of 1970.
pub open spec fn is_moment(t: DateTime, secs: u64) -> bool {
    &&& t.valid()
    &&& t.day_number() == (secs / 86400) % 0x1_0000_0000
    &&& t.seconds() % 86400 == secs % 86400
    &&& secs < 86400 * 0x1_0000_0000 ==> t.seconds() == secs
}

/// The date and time of day, in universal time, so many seconds after the start of
/// 1970. The count of days starts over after two to the power 32 days.
pub fn seconds_to_ymdhms(secs: u64) -> (r: DateTime)
    ensures
        is_moment(r, secs),
{
    let second: u32 = (secs % 60) as u32;
    let minutes: u64 = secs / 60;
    let minute: u32 = (minutes % 60) as u32;
    let hours: u64 = minutes / 60;
    let hour: u32 = (hours % 24) as u32;
    let count: u64 = hours / 24;
    let total: u32 = (count % 0x1_0000_0000) as u32;
    let mut days: u32 = total;
    let mut year: u32 = 1970;
    let mut ydays: u32 = 365;
    while days >= ydays
        invariant
            1970 <= year,
            ydays == year_days(year as int),
            total == days_to_year(year as int) + days,
            365 * (year - 1970) <= total - days,
        decreases days,
    {
        days = days - ydays;
        year = year + 1;
        ydays = if is_leap(year) {
            366
        } else {
            365
        };
    }
    let ghost of_year = days;
    let mut month: u32 = 1;
    proof {
        lemma_year_days(year as int);
    }
    while days >= month_length(year, month)
        invariant
            1 <= month <= 12,
            of_year == days_to_month(year as int, month as int) + days,
            of_year < year_days(year as int),
            days_to_month(year as int, 13) == year_days(year as int),
        decreases days,
    {
        proof {
            if month == 12 {
                assert(days_to_month(year as int, 13) == days_to_month(year as int, 12) + month_days(
                    year as int,
                    12,
                ));
            }
        }
        days = days - month_length(year, month);
        month = month + 1;
    }
    DateTime { year, month, day: days + 1, hour, minute, second }
}

/// The name of a file that is made at a moment.
pub open spec fn stamped_name(prefix: Seq<char>, t: DateTime, ext: Seq<char>) -> Seq<char> {
    prefix + padded(t.year as nat, 4) + padded(t.month as nat, 2) + padded(t.day as nat, 2) + seq!['-']
        + padded(t.hour as nat, 2) + padded(t.minute as nat, 2) + padded(t.second as nat, 2) + ext
}

/// The name of a file that is made so many seconds after the start of 1970.
pub fn timestamped_filename(prefix: &str, ext: &str, secs: u64) -> (r: String)
    ensures
        exists|t: DateTime| #[trigger]
            is_moment(t, secs) && r@ == stamped_name(prefix@, t, ext@),
{
    let t = seconds_to_ymdhms(secs);
    let mut r = String::from_str(prefix);
    push_padded(&mut r, t.year as u64, 4);
    push_padded(&mut r, t.month as u64, 2);
    push_padded(&mut r, t.day as u64, 2);
    proof {
        reveal_strlit("-");
        assert("-"@ =~= seq!['-']);
    }
    r.append("-");
    push_padded(&mut r, t.hour as u64, 2);
    push_padded(&mut r, t.minute as u64, 2);
    push_padded(&mut r, t.second as u64, 2);
    r.append(ext);
    assert(r@ =~= stamped_name(prefix@, t, ext@));
    r
}

proof fn lemma_months_grow(y: int, m: int, n: int)
    requires
        1 <= m < n <= 13,
    ensures
        days_to_month(y, m) + month_days(y, m) <= days_to_month(y, n),
    decreases n,
{
    if m + 1 < n {
        lemma_months_grow(y, m, n - 1);
    }
}

proof fn lemma_years_apart(y: int, z: int)
    requires
        1970 <= y < z,
    ensures
        days_to_year(y) + year_days(y) <= days_to_year(z),
    decreases z,
{
    if y + 1 < z {
        lemma_years_apart(y, z - 1);
    }
}

proof fn lemma_day_of_year(t: DateTime)
    requires
        t.valid(),
    ensures
        0 <= days_to_month(t.year as int, t.month as int) + t.day - 1 < year_days(t.year as int),
{
    lemma_year_days(t.year as int);
    lemma_months_grow(t.year as int, t.month as int, 13);
    if t.month > 1 {
        lemma_months_grow(t.year as int, 1, t.month as int);
    }
}

/// Different dates are different days: a valid date is the only one with its number.
pub proof fn law_day_has_one_date(a: DateTime, b: DateTime)
    requires
        a.valid(),
        b.valid(),
        a.day_number() == b.day_number(),
    ensures
        a.year == b.year,
        a.month == b.month,
        a.day == b.day,
{
    lemma_day_of_year(a);
    lemma_day_of_year(b);
    if a.year < b.year {
        lemma_years_apart(a.year as int, b.year as int);
    } else if b.year < a.year {
        lemma_years_apart(b.year as int, a.year as int);
    } else if a.month < b.month {
        lemma_months_grow(a.year as int, a.month as int, b.month as int);
    } else if b.month < a.month {
        lemma_months_grow(a.year as int, b.month as int, a.month as int);
    }
}

/// A second has one date and time of day.
pub proof fn law_second_has_one_time(a: DateTime, b: DateTime)
    requires
        a.valid(),
        b.valid(),
        a.seconds() == b.seconds(),
    ensures
        a == b,
{
    assert(a.second == b.second && a.minute == b.minute && a.hour == b.hour);
    law_day_has_one_date(a, b);
}

/// The months of a year make up the year. By the rule of the knuckles they are long and
/// short in turn, and July and August are both long; February takes what is left.
pub proof fn law_months_make_up_the_year(y: int, m: int)
    requires
        1 <= m <= 12,
    ensures
        days_to_month(y, 13) == year_days(y),
        m != 2 ==> (month_days(y, m) == 31 <==> (m + m / 8) % 2 == 1),
        m != 2 ==> (month_days(y, m) == 30 <==> (m + m / 8) % 2 == 0),
        month_days(y, 2) == year_days(y) - 337,
        days_to_month(y, 1) == 0,
        days_to_month(y, m + 1) == days_to_month(y, m) + month_days(y, m),
{
    reveal_with_fuel(days_to_month, 13);
}

/// The days before a year: 365 for each year since 1970, and one more for each fourth year,
/// except for each hundredth, but again for each four hundredth.
pub proof fn law_days_before_a_year(y: int)
    requires
        y >= 1970,
    ensures
        days_to_year(y) == 365 * (y - 1970) + ((y - 1) / 4 - 492) - ((y - 1) / 100 - 19) + ((y - 1) / 400
            - 4),
    decreases y,
{
    if y > 1970 {
        law_days_before_a_year(y - 1);
        let p = y - 1;
        assert(p / 4 - (p - 1) / 4 == if p % 4 == 0 { 1int } else { 0 });
        assert(p / 100 - (p - 1) / 100 == if p % 100 == 0 { 1int } else { 0 });
        assert(p / 400 - (p - 1) / 400 == if p % 400 == 0 { 1int } else { 0 });
    }
}

/// The calendar repeats every four hundred years, after 146097 days.
pub proof fn law_calendar_repeats(y: int, m: int)
    requires
        y >= 1970,
    ensures
        days_to_year(y + 400) == days_to_year(y) + 146097,
        month_days(y + 400, m) == month_days(y, m),
{
    law_days_before_a_year(y);
    law_days_before_a_year(y + 400);
}

/// The next day of a month has the next number, the first of a month follows on the last of
/// the month before, and New Year on the last of December.
pub proof fn law_days_follow_one_another(a: DateTime, b: DateTime)
    requires
        a.valid(),
        b.valid(),
        ({
            ||| b.year == a.year && b.month == a.month && b.day == a.day + 1
            ||| b.year == a.year && b.month == a.month + 1 && b.day == 1 && a.day == month_days(
                a.year as int,
                a.month as int,
            )
            ||| b.year == a.year + 1 && b.month == 1 && b.day == 1 && a.month == 12 && a.day == 31
        }),
    ensures
        b.day_number() == a.day_number() + 1,
{
    law_months_make_up_the_year(a.year as int, a.month as int);
    reveal_with_fuel(days_to_month, 2);
}

/// The name of a file tells the moment: after the prefix four digits for the year and two each
/// for the month and the day, then a dash and two digits each for the hour, the minute and the
/// second.
pub proof fn law_name_tells_the_moment(prefix: Seq<char>, t: DateTime, ext: Seq<char>)
    requires
        t.valid(),
        t.year <= 9999,
    ensures
        ({
            let s = stamped_name(prefix, t, ext);
            let p = prefix.len() as int;
            &&& s.len() == p + 15 + ext.len()
            &&& s.subrange(0, p) == prefix
            &&& reads_as(s.subrange(p, p + 4)) == t.year
            &&& reads_as(s.subrange(p + 4, p + 6)) == t.month
            &&& reads_as(s.subrange(p + 6, p + 8)) == t.day
            &&& s[p + 8] == '-'
            &&& reads_as(s.subrange(p + 9, p + 11)) == t.hour
            &&& reads_as(s.subrange(p + 11, p + 13)) == t.minute
            &&& reads_as(s.subrange(p + 13, p + 15)) == t.second
            &&& s.subrange(p + 15, s.len() as int) == ext
        }),
{
    let s = stamped_name(prefix, t, ext);
    let p = prefix.len() as int;
    law_padded_reads_as_the_number(t.year as nat, 4);
    law_padded_reads_as_the_number(t.month as nat, 2);
    law_padded_reads_as_the_number(t.day as nat, 2);
    law_padded_reads_as_the_number(t.hour as nat, 2);
    law_padded_reads_as_the_number(t.minute as nat, 2);
    law_padded_reads_as_the_number(t.second as nat, 2);
    law_padded_is_as_long(t.year as nat, 4);
    law_padded_is_as_long(t.month as nat, 2);
    law_padded_is_as_long(t.day as nat, 2);
    law_padded_is_as_long(t.hour as nat, 2);
    law_padded_is_as_long(t.minute as nat, 2);
    law_padded_is_as_long(t.second as nat, 2);
    assert(s.subrange(0, p) =~= prefix);
    assert(s.subrange(p, p + 4) =~= padded(t.year as nat, 4));
    assert(s.subrange(p + 4, p + 6) =~= padded(t.month as nat, 2));
    assert(s.subrange(p + 6, p + 8) =~= padded(t.day as nat, 2));
    assert(s.subrange(p + 9, p + 11) =~= padded(t.hour as nat, 2));
    assert(s.subrange(p + 11, p + 13) =~= padded(t.minute as nat, 2));
    assert(s.subrange(p + 13, p + 15) =~= padded(t.second as nat, 2));
    assert(s.subrange(p + 15, s.len() as int) =~= ext);
}

} // verus!
