//! Conversion of UNIX time stamps into calendar dates.
use vstd::prelude::*;

verus! {

/// Seconds in a minute.
pub const SECONDS_PER_MINUTE: u32 = 60;
/// Seconds in an hour.
pub const SECONDS_PER_HOUR: u32 = 3600;
/// Seconds in a day.
pub const SECONDS_PER_DAY: u32 = 86400;

/// A month of the Gregorian calendar.
#[derive(Clone, Copy, Debug, PartialEq, Eq, Structural, PartialOrd, Ord)]
pub enum Month {
    January,
    February,
    March,
    April,
    May,
    June,
    July,
    August,
    September,
    October,
    November,
    December,
}

/// Before or after noon.
#[derive(Clone, Copy, Debug, PartialEq, Eq, Structural)]
pub enum Period {
    AM,
    PM,
}

/// The zero-based number of a month (January is 0).
pub open spec fn month_index(m: Month) -> int {
    match m {
        Month::January => 0,
        Month::February => 1,
        Month::March => 2,
        Month::April => 3,
        Month::May => 4,
        Month::June => 5,
        Month::July => 6,
        Month::August => 7,
        Month::September => 8,
        Month::October => 9,
        Month::November => 10,
        Month::December => 11,
    }
}

/// Gregorian leap year rule.
pub open spec fn is_leap(year: int) -> bool {
    year % 4 == 0 && (year % 100 != 0 || year % 400 == 0)
}

/// Number of days in a year.
pub open spec fn year_days(year: int) -> int {
    if is_leap(year) {
        366
    } else {
        365
    }
}

/// Number of days from 1970-01-01 to the first day of `year`
/// (negative for years before 1970).
pub open spec fn days_before_year(year: int) -> int
    decreases (if year >= 1970 { year - 1970 } else { 1970 - year }),
{
    if year == 1970 {
        0
    } else if year > 1970 {
        days_before_year(year - 1) + year_days(year - 1)
    } else {
        days_before_year(year + 1) - year_days(year)
    }
}

/// Number of days in month `m` (zero-based) of a leap or common year.
pub open spec fn month_days(leap: bool, m: int) -> int {
    if m == 1 {
        if leap {
            29
        } else {
            28
        }
    } else if m == 3 || m == 5 || m == 8 || m == 10 {
        30
    } else {
        31
    }
}

/// Number of days of a year that precede month `m` (zero-based).
pub open spec fn days_before_month(leap: bool, m: int) -> int
    decreases m,
{
    if m <= 0 {
        0
    } else {
        days_before_month(leap, m - 1) + month_days(leap, m - 1)
    }
}

/// The time stamps that `Date::from_utime` converts: those from the start
/// of 1969 to the end of the year `i32::MAX`. A time before 1969 is not
/// brought into the year it falls in: one year's seconds added to it still
/// leave it negative, and it has no day of the year.
pub open spec fn utime_in_range(utime: int) -> bool {
    86400 * days_before_year(1969) <= utime < 86400 * days_before_year(
        i32::MAX as int + 1,
    )
}

/// A calendar date and time of day (UTC).
pub struct Date {
    second: u8,
    minute: u8,
    hour: u8,
    month: Month,
    day_of_month: u8,
    day_of_year: u16,
    year: i32,
}

impl Date {
    /// Every field of a date is within its calendar range.
    #[verifier::type_invariant]
    spec fn wf(&self) -> bool {
        &&& self.second < 60
        &&& self.minute < 60
        &&& self.hour < 24
        &&& self.day_of_month < 31
        &&& self.day_of_year < 366
    }

    /// Year of the date.
    pub closed spec fn year_spec(&self) -> int {
        self.year as int
    }

    /// Month of the date.
    pub closed spec fn month_spec(&self) -> Month {
        self.month
    }

    /// Zero-based day of the year.
    pub closed spec fn yday_spec(&self) -> int {
        self.day_of_year as int
    }

    /// Zero-based day of the month.
    pub closed spec fn mday_spec(&self) -> int {
        self.day_of_month as int
    }

    /// Hour of the day, 0 to 23.
    pub closed spec fn hour_spec(&self) -> int {
        self.hour as int
    }

    /// Minute of the hour.
    pub closed spec fn minute_spec(&self) -> int {
        self.minute as int
    }

    /// Second of the minute.
    pub closed spec fn second_spec(&self) -> int {
        self.second as int
    }

    /// The date is the one that UNIX time `utime` falls in.
    pub open spec fn denotes(&self, utime: int) -> bool {
        let y = self.year_spec();
        let leap = is_leap(y);
        let secs = utime - 86400 * days_before_year(y);
        let m = month_index(self.month_spec());
        &&& 86400 * days_before_year(y) <= utime < 86400 * days_before_year(y + 1)
        &&& self.yday_spec() == secs / 86400
        &&& days_before_month(leap, m) <= self.yday_spec() < days_before_month(leap, m + 1)
        &&& self.mday_spec() == self.yday_spec() - days_before_month(leap, m)
        &&& self.hour_spec() == (secs % 86400) / 3600
        &&& self.minute_spec() == (secs % 3600) / 60
        &&& self.second_spec() == secs % 60
    }
}


/// Each year adds its own length to the day count.
pub proof fn lemma_days_before_year_step(year: int)
    ensures
        days_before_year(year + 1) == days_before_year(year) + year_days(year),
{
    if year >= 1970 {
        assert(days_before_year(year + 1) == days_before_year(year) + year_days(year));
    } else {
        assert(days_before_year(year) == days_before_year(year + 1) - year_days(year));
    }
}

/// The day count of the first day of a year grows strictly with the year.
pub proof fn lemma_days_before_year_strict(a: int, b: int)
    requires
        a < b,
    ensures
        days_before_year(a) + 365 * (b - a) <= days_before_year(b),
        days_before_year(b) <= days_before_year(a) + 366 * (b - a),
    decreases b - a,
{
    lemma_days_before_year_step(b - 1);
    if a < b - 1 {
        lemma_days_before_year_strict(a, b - 1);
    }
}

/// The number of days of a year, month by month.
pub proof fn lemma_days_before_month(leap: bool)
    ensures
        days_before_month(leap, 0) == 0,
        days_before_month(leap, 1) == 31,
        days_before_month(leap, 2) == if leap { 60int } else { 59int },
        days_before_month(leap, 12) == if leap { 366int } else { 365int },
        forall|m: int| 0 <= m < 12 ==> #[trigger] days_before_month(leap, m) < days_before_month(leap, m + 1),
{
    reveal_with_fuel(days_before_month, 13);
    assert forall|m: int| 0 <= m < 12 implies #[trigger] days_before_month(leap, m) < days_before_month(leap, m + 1) by {
        assert(days_before_month(leap, m + 1) == days_before_month(leap, m) + month_days(leap, m));
    }
}

/// Whether `year` is a leap year of the Gregorian calendar.
#[verifier::spinoff_prover]
pub fn is_leap_year(year: i32) -> (r: bool)
    ensures
        r == is_leap(year as int),
{
    year % 4 == 0 && (year % 100 != 0 || year % 400 == 0)
}


/// Number of days in month `m` (zero-based) of a leap or common year.
fn days_in_month(leap: bool, m: u8) -> (r: u8)
    requires
        m < 12,
    ensures
        r as int == month_days(leap, m as int),
{
    if m == 1 {
        if leap {
            29
        } else {
            28
        }
    } else if m == 3 || m == 5 || m == 8 || m == 10 {
        30
    } else {
        31
    }
}

impl Month {
    /// The month with zero-based number `value`; `Err` for 12 and above.
    pub fn try_from(value: u8) -> (r: Result<Month, ()>)
        ensures
            r is Ok <==> value < 12,
            r matches Ok(m) ==> month_index(m) == value,
    {
        match value {
            0 => Ok(Month::January),
            1 => Ok(Month::February),
            2 => Ok(Month::March),
            3 => Ok(Month::April),
            4 => Ok(Month::May),
            5 => Ok(Month::June),
            6 => Ok(Month::July),
            7 => Ok(Month::August),
            8 => Ok(Month::September),
            9 => Ok(Month::October),
            10 => Ok(Month::November),
            11 => Ok(Month::December),
            _ => Err(()),
        }
    }
}

/// Removing whole days changes neither the time of day nor the count of
/// days beyond those removed.
proof fn lemma_whole_days(a: int, k: int)
    requires
        0 <= k,
        0 <= a - 86400 * k,
    ensures
        (a - 86400 * k) / 86400 == a / 86400 - k,
        (a - 86400 * k) % 86400 == a % 86400,
{
    let q = a / 86400;
    let r = a % 86400;
    vstd::arithmetic::div_mod::lemma_fundamental_div_mod(a, 86400);
    assert(a - 86400 * k == (q - k) * 86400 + r);
    vstd::arithmetic::div_mod::lemma_fundamental_div_mod_converse(a - 86400 * k, 86400, q - k, r);
}

/// An hour divides a day and a minute divides an hour.
proof fn lemma_clock(x: int)
    requires
        0 <= x,
    ensures
        (x % 86400) % 3600 == x % 3600,
        (x % 3600) % 60 == x % 60,
{
    vstd::arithmetic::div_mod::lemma_mod_mod(x, 3600, 24);
    vstd::arithmetic::div_mod::lemma_mod_mod(x, 60, 60);
}

/// Splits a time stamp into its year and the seconds since that year began.
fn split_year(utime: i64) -> (r: (i32, bool, i64))
    requires
        utime_in_range(utime as int),
    ensures
        0 <= r.2 < 86400 * year_days(r.0 as int),
        r.2 as int == utime as int - 86400 * days_before_year(r.0 as int),
        r.1 == is_leap(r.0 as int),
{
    let mut rem: i64 = utime;
    let mut year: i32 = 1970;
    let mut leap: bool = false;
    if rem >= 0 {
        loop
            invariant
                0 <= rem,
                1970 <= year,
                rem as int == utime as int - 86400 * days_before_year(year as int),
                leap == is_leap(year as int),
                utime_in_range(utime as int),
            ensures
                0 <= rem < 86400 * year_days(year as int),
                rem as int == utime as int - 86400 * days_before_year(year as int),
                leap == is_leap(year as int),
            decreases i32::MAX - year,
        {
            let days: i64 = if leap {
                366
            } else {
                365
            };
            let needed: i64 = 86400 * days;
            if rem < needed {
                break;
            }
            proof {
                lemma_days_before_year_step(year as int);
                if year as int >= i32::MAX as int {
                    lemma_days_before_year_step(i32::MAX as int);
                }
            }
            rem = rem - needed;
            year = year + 1;
            leap = is_leap_year(year);
        }
    } else {
        while rem < 0
            invariant
                year <= 1970,
                rem >= 0 ==> rem < 86400 * year_days(year as int),
                rem as int == utime as int - 86400 * days_before_year(year as int),
                leap == is_leap(year as int),
                utime_in_range(utime as int),
                1969 <= year,
                year == 1969 ==> rem >= 0,
            decreases year - 1969,
        {
            proof {
                lemma_days_before_year_step(1969);
            }
            year = year - 1;
            leap = is_leap_year(year);
            let days: i64 = if leap {
                366
            } else {
                365
            };
            let needed: i64 = 86400 * days;
            rem = rem + needed;
        }
    }
    (year, leap, rem)
}

/// Splits the seconds since the start of a year into the month and the
/// seconds since that month began.
fn split_month(leap: bool, secs: u64) -> (r: (u8, u64))
    requires
        secs < 86400 * days_before_month(leap, 12),
    ensures
        r.0 < 12,
        r.1 as int == secs as int - 86400 * days_before_month(leap, r.0 as int),
        r.1 < 86400 * month_days(leap, r.0 as int),
{
    proof {
        lemma_days_before_month(leap);
    }
    let mut month: u8 = 0;
    let mut left: u64 = secs;
    loop
        invariant
            month < 12,
            secs < 86400 * days_before_month(leap, 12),
            left as int == secs as int - 86400 * days_before_month(leap, month as int),
            forall|m: int| 0 <= m < 12 ==> #[trigger] days_before_month(leap, m) < days_before_month(leap, m + 1),
        ensures
            month < 12,
            left as int == secs as int - 86400 * days_before_month(leap, month as int),
            left < 86400 * month_days(leap, month as int),
        decreases 12 - month,
    {
        let needed: u64 = days_in_month(leap, month) as u64 * 86400;
        if left < needed {
            break;
        }
        assert(days_before_month(leap, month as int + 1) == days_before_month(leap, month as int) + month_days(leap, month as int));
        left = left - needed;
        if month == 11 {
            assert(false);
        }
        month = month + 1;
    }
    (month, left)
}

impl Date {
    /// The date and time of day that UNIX time `utime` (seconds since
    /// 1970-01-01 00:00:00 UTC) falls in, from the start of 1969 on.
    pub fn from_utime(utime: i64) -> (d: Date)
        requires
            utime_in_range(utime as int),
        ensures
            d.denotes(utime as int),
    {
        let (year, leap, rem) = split_year(utime);
        proof {
            lemma_days_before_year_step(year as int);
            lemma_days_before_month(leap);
        }
        let secs: u64 = rem as u64;
        assert(secs / 86400 < 366);
        let day_of_year: u16 = (secs / 86400) as u16;
        let (month, left) = split_month(leap, secs);
        assert(days_before_month(leap, month as int + 1) == days_before_month(leap, month as int) + month_days(leap, month as int));
        assert(month_days(leap, month as int) <= 31);
        assert(left / 86400 < 31);
        proof {
            lemma_whole_days(secs as int, days_before_month(leap, month as int));
            lemma_clock(secs as int);
        }
        let day_of_month: u8 = (left / 86400) as u8;
        let in_day: u64 = left % 86400;
        let hour: u8 = (in_day / 3600) as u8;
        let in_hour: u64 = in_day % 3600;
        let minute: u8 = (in_hour / 60) as u8;
        let second: u8 = (in_hour % 60) as u8;
        let m = match Month::try_from(month) {
            Ok(m) => m,
            Err(()) => Month::January,
        };
        Date { second, minute, hour, month: m, day_of_month, day_of_year, year }
    }
}

impl Date {
    /// Second of the minute, 0 to 59.
    pub fn second(&self) -> (r: u8)
        ensures
            r as int == self.second_spec(),
    {
        self.second
    }

    /// Minute of the hour, 0 to 59.
    pub fn minute(&self) -> (r: u8)
        ensures
            r as int == self.minute_spec(),
    {
        self.minute
    }

    /// Hour of the day, 0 to 23.
    pub fn hour(&self) -> (r: u8)
        ensures
            r as int == self.hour_spec(),
    {
        self.hour
    }

    /// Hour on a twelve-hour clock, 1 to 12.
    pub fn hour_12(&self) -> (r: u8)
        ensures
            r as int == if self.hour_spec() % 12 == 0 { 12 } else { self.hour_spec() % 12 },
    {
        match self.hour % 12 {
            0 => 12u8,
            x => x,
        }
    }

    /// Whether the time is before or after noon.
    pub fn period(&self) -> (r: Period)
        ensures
            r == (if self.hour_spec() < 12 { Period::AM } else { Period::PM }),
    {
        if self.hour < 12 {
            Period::AM
        } else {
            Period::PM
        }
    }

    /// Month of the year.
    pub fn month(&self) -> (r: Month)
        ensures
            r == self.month_spec(),
    {
        self.month
    }

    /// Day of the month, counted from 1.
    pub fn day_of_month(&self) -> (r: u8)
        ensures
            r as int == self.mday_spec() + 1,
    {
        proof {
            use_type_invariant(self);
        }
        self.day_of_month + 1
    }

    /// Day of the year, counted from 1.
    pub fn day_of_year(&self) -> (r: u16)
        ensures
            r as int == self.yday_spec() + 1,
    {
        proof {
            use_type_invariant(self);
        }
        self.day_of_year + 1
    }

    /// The year.
    pub fn year(&self) -> (r: i32)
        ensures
            r as int == self.year_spec(),
    {
        self.year
    }
}

/// English name of a month.
pub open spec fn month_name(m: Month) -> Seq<char> {
    match m {
        Month::January => "January"@,
        Month::February => "February"@,
        Month::March => "March"@,
        Month::April => "April"@,
        Month::May => "May"@,
        Month::June => "June"@,
        Month::July => "July"@,
        Month::August => "August"@,
        Month::September => "September"@,
        Month::October => "October"@,
        Month::November => "November"@,
        Month::December => "December"@,
    }
}

/// The English names of the twelve months, in calendar order.
pub open spec fn english_month_names() -> Seq<Seq<char>> {
    seq![
        "January"@,
        "February"@,
        "March"@,
        "April"@,
        "May"@,
        "June"@,
        "July"@,
        "August"@,
        "September"@,
        "October"@,
        "November"@,
        "December"@,
    ]
}

/// A month is printed by the English name of the month at its place in
/// the year, so names follow the calendar: the month of 28 days in a
/// common year is February, the months of 30 days are April, June,
/// September and November, and the others have 31 days.
pub proof fn law_month_names(m: Month)
    ensures
        month_name(m) == english_month_names()[month_index(m)],
        month_days(false, month_index(m)) == 28 ==> month_name(m) == "February"@,
        month_days(false, month_index(m)) == 30 ==> month_name(m) == "April"@ || month_name(m) == "June"@
            || month_name(m) == "September"@ || month_name(m) == "November"@,
        month_days(false, month_index(m)) == 31 ==> month_name(m) == "January"@ || month_name(m) == "March"@
            || month_name(m) == "May"@ || month_name(m) == "July"@ || month_name(m) == "August"@ || month_name(m)
            == "October"@ || month_name(m) == "December"@,
{
}

/// No two months share a name.
pub proof fn law_month_names_distinct(a: Month, b: Month)
    ensures
        a != b ==> month_name(a) != month_name(b),
{
    reveal_strlit("January");
    reveal_strlit("February");
    reveal_strlit("March");
    reveal_strlit("April");
    reveal_strlit("May");
    reveal_strlit("June");
    reveal_strlit("July");
    reveal_strlit("August");
    reveal_strlit("September");
    reveal_strlit("October");
    reveal_strlit("November");
    reveal_strlit("December");
    if a != b && month_name(a) == month_name(b) {
        let na = month_name(a);
        let nb = month_name(b);
        assert(na.len() == nb.len());
        assert(na[0] == nb[0]);
        if na.len() > 2 {
            assert(na[1] == nb[1]);
            assert(na[2] == nb[2]);
        }
        if na.len() > 3 {
            assert(na[3] == nb[3]);
        }
    }
}

impl Month {
    /// English name of the month, as the date is printed.
    pub fn name(&self) -> (r: &'static str)
        ensures
            r@ == month_name(*self),
    {
        match self {
            Month::January => "January",
            Month::February => "February",
            Month::March => "March",
            Month::April => "April",
            Month::May => "May",
            Month::June => "June",
            Month::July => "July",
            Month::August => "August",
            Month::September => "September",
            Month::October => "October",
            Month::November => "November",
            Month::December => "December",
        }
    }
}

impl Period {
    /// `AM` or `PM`, as the time is printed.
    pub fn name(&self) -> (r: &'static str)
        ensures
            r@ == (if *self == Period::AM { "AM"@ } else { "PM"@ }),
    {
        match self {
            Period::AM => "AM",
            Period::PM => "PM",
        }
    }
}

/// A second of a year is its day, hour, minute and second put together.
proof fn lemma_clock_parts(secs: int)
    requires
        0 <= secs,
    ensures
        secs == 86400 * (secs / 86400) + 3600 * ((secs % 86400) / 3600) + 60 * ((secs % 3600) / 60)
            + secs % 60,
{
    vstd::arithmetic::div_mod::lemma_fundamental_div_mod(secs, 86400);
    vstd::arithmetic::div_mod::lemma_fundamental_div_mod(secs % 86400, 3600);
    vstd::arithmetic::div_mod::lemma_mod_mod(secs, 3600, 24);
    vstd::arithmetic::div_mod::lemma_fundamental_div_mod(secs % 3600, 60);
    vstd::arithmetic::div_mod::lemma_mod_mod(secs, 60, 60);
}

/// A date names exactly one second: two times that it denotes are the
/// same time.
pub proof fn law_date_names_one_second(d: Date, t1: int, t2: int)
    requires
        d.denotes(t1),
        d.denotes(t2),
    ensures
        t1 == t2,
{
    let base = 86400 * days_before_year(d.year_spec());
    lemma_clock_parts(t1 - base);
    lemma_clock_parts(t2 - base);
}

/// The fields of a date lie in their calendar ranges: the day is one of
/// its month's, the hour one of a day's.
pub proof fn law_date_fields(d: Date, t: int)
    requires
        d.denotes(t),
    ensures
        0 <= d.mday_spec() < month_days(is_leap(d.year_spec()), month_index(d.month_spec())),
        0 <= d.yday_spec() < year_days(d.year_spec()),
        0 <= d.hour_spec() < 24,
        0 <= d.minute_spec() < 60,
        0 <= d.second_spec() < 60,
{
    let y = d.year_spec();
    lemma_days_before_year_step(y);
    lemma_days_before_month(is_leap(y));
    let secs = t - 86400 * days_before_year(y);
    vstd::arithmetic::div_mod::lemma_div_pos_is_pos(secs, 86400);
    vstd::arithmetic::div_mod::lemma_mod_pos_bound(secs, 86400);
    vstd::arithmetic::div_mod::lemma_mod_pos_bound(secs, 3600);
    vstd::arithmetic::div_mod::lemma_div_pos_is_pos(secs % 86400, 3600);
    vstd::arithmetic::div_mod::lemma_div_pos_is_pos(secs % 3600, 60);
    assert(secs < 86400 * year_days(y));
    vstd::arithmetic::div_mod::lemma_multiply_divide_lt(secs, 86400, year_days(y));
}

/// Days before a later month are no fewer.
proof fn lemma_days_before_month_mono(leap: bool, a: int, b: int)
    requires
        0 <= a <= b,
    ensures
        days_before_month(leap, a) <= days_before_month(leap, b),
    decreases b - a,
{
    if a < b {
        lemma_days_before_month_mono(leap, a, b - 1);
    }
}

/// Days before a later year are no fewer.
proof fn lemma_days_before_year_mono(a: int, b: int)
    requires
        a <= b,
    ensures
        days_before_year(a) <= days_before_year(b),
{
    if a < b {
        lemma_days_before_year_strict(a, b);
    }
}

/// A second falls in exactly one date: two dates that denote the same
/// time agree in every field.
pub proof fn law_one_date_per_second(d1: Date, d2: Date, t: int)
    requires
        d1.denotes(t),
        d2.denotes(t),
    ensures
        d1.year_spec() == d2.year_spec(),
        d1.month_spec() == d2.month_spec(),
        d1.mday_spec() == d2.mday_spec(),
        d1.yday_spec() == d2.yday_spec(),
        d1.hour_spec() == d2.hour_spec(),
        d1.minute_spec() == d2.minute_spec(),
        d1.second_spec() == d2.second_spec(),
{
    let y1 = d1.year_spec();
    let y2 = d2.year_spec();
    if y1 < y2 {
        lemma_days_before_year_mono(y1 + 1, y2);
    }
    if y2 < y1 {
        lemma_days_before_year_mono(y2 + 1, y1);
    }
    assert(y1 == y2);
    let leap = is_leap(y1);
    let m1 = month_index(d1.month_spec());
    let m2 = month_index(d2.month_spec());
    if m1 < m2 {
        lemma_days_before_month_mono(leap, m1 + 1, m2);
    }
    if m2 < m1 {
        lemma_days_before_month_mono(leap, m2 + 1, m1);
    }
    assert(m1 == m2);
}

/// Leap years before year `y`, counted from year 1 on (negative before it).
pub open spec fn leaps_before(y: int) -> int {
    (y - 1) / 4 - (y - 1) / 100 + (y - 1) / 400
}

/// Whether `m` divides `y`, as the count of multiples of `m` up to `y`
/// grows from `y - 1` to `y`.
proof fn lemma_multiple_step(y: int, m: int)
    requires
        0 < m,
    ensures
        y / m - (y - 1) / m == if y % m == 0 { 1int } else { 0int },
{
    let q = (y - 1) / m;
    let r = (y - 1) % m;
    vstd::arithmetic::div_mod::lemma_fundamental_div_mod(y - 1, m);
    vstd::arithmetic::div_mod::lemma_mod_bound(y - 1, m);
    if r == m - 1 {
        assert(y == (q + 1) * m + 0) by (nonlinear_arith)
            requires
                y - 1 == m * q + r,
                r == m - 1,
        ;
        vstd::arithmetic::div_mod::lemma_fundamental_div_mod_converse(y, m, q + 1, 0);
    } else {
        assert(y == q * m + (r + 1)) by (nonlinear_arith)
            requires
                y - 1 == m * q + r,
        ;
        vstd::arithmetic::div_mod::lemma_fundamental_div_mod_converse(y, m, q, r + 1);
    }
}

/// The count of leap years grows by one past each leap year.
proof fn lemma_leaps_step(y: int)
    ensures
        leaps_before(y + 1) == leaps_before(y) + if is_leap(y) { 1int } else { 0int },
{
    lemma_multiple_step(y, 4);
    lemma_multiple_step(y, 100);
    lemma_multiple_step(y, 400);
    if y % 400 == 0 {
        let k = y / 400;
        vstd::arithmetic::div_mod::lemma_fundamental_div_mod(y, 400);
        vstd::arithmetic::div_mod::lemma_fundamental_div_mod_converse(y, 100, 4 * k, 0);
    }
    if y % 100 == 0 {
        let k = y / 100;
        vstd::arithmetic::div_mod::lemma_fundamental_div_mod(y, 100);
        vstd::arithmetic::div_mod::lemma_fundamental_div_mod_converse(y, 4, 25 * k, 0);
    }
}

/// Days before a year, counted in whole years and leap days.
pub proof fn lemma_days_before_year_closed(y: int)
    ensures
        days_before_year(y) == 365 * (y - 1970) + leaps_before(y) - leaps_before(1970),
    decreases (if y >= 1970 { y - 1970 } else { 1970 - y }),
{
    if y > 1970 {
        lemma_days_before_year_closed(y - 1);
        lemma_days_before_year_step(y - 1);
        lemma_leaps_step(y - 1);
    } else if y < 1970 {
        lemma_days_before_year_closed(y + 1);
        lemma_days_before_year_step(y);
        lemma_leaps_step(y);
    }
}

/// The first time stamp `Date::from_utime` converts: the start of 1969.
pub const MIN_UTIME: i64 = -31536000;

/// The first time stamp past those `Date::from_utime` converts: the end
/// of the year `i32::MAX`.
pub const MAX_UTIME: i64 = 67767976233532800;

/// Whether `Date::from_utime` converts `utime`: whether it lies between
/// the start of 1969 and the end of the year `i32::MAX`.
pub fn utime_supported(utime: i64) -> (r: bool)
    ensures
        r == utime_in_range(utime as int),
{
    proof {
        lemma_days_before_year_step(1969);
        lemma_days_before_year_closed(i32::MAX as int + 1);
        assert(leaps_before(1970) == 477);
        assert(86400 * days_before_year(1969) == MIN_UTIME);
        assert(86400 * days_before_year(i32::MAX as int + 1) == MAX_UTIME);
    }
    MIN_UTIME <= utime && utime < MAX_UTIME
}

} // verus!
