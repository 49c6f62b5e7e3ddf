use chrono::Datelike;
use chrono::Timelike;
use vstd::arithmetic::div_mod::{lemma_add_mod_noop, lemma_small_mod};
use vstd::prelude::*;

use crate::utils::{bit_range, bit_set, ExclusiveRange, InclusiveRange, Ranked, ValidCheck};

verus! {

/// Day number of the earliest date that chrono can hold (January 1, 262144 BCE, year -262143).
pub const MIN_DAYS: i32 = -95746129;

/// Day number of the latest date that chrono can hold (December 31, 262142 CE).
pub const MAX_DAYS: i32 = 95745399;

/// Year of the earliest date that chrono can hold.
pub const MIN_YEAR: i32 = -262143;

/// Year of the latest date that chrono can hold.
pub const MAX_YEAR: i32 = 262142;

/// Day number of 0001-01-01, which stands for "no date" in partial updates.
pub const EMPTY_DAYS: i32 = 1;

/// A day of the proleptic Gregorian calendar, counted as chrono's `num_days_from_ce` counts
/// them: day 1 is January 1 of year 1, a Monday.
#[derive(Clone, Copy, PartialEq, Eq, Structural, Debug)]
pub struct Date {
    pub days: i32,
}

pub type DateRange = InclusiveRange<Date>;

/// Whether a year of the proleptic Gregorian calendar is a leap year.
pub open spec fn is_leap(year: int) -> bool {
    year % 4 == 0 && (year % 100 != 0 || year % 400 == 0)
}

/// The number of days of a month.
pub open spec fn month_days(year: int, month: int) -> int {
    if month == 2 {
        if is_leap(year) { 29 } else { 28 }
    } else if month == 4 || month == 6 || month == 9 || month == 11 {
        30
    } else {
        31
    }
}

/// The number of days of a year before the first day of a month.
pub open spec fn days_before_month(year: int, month: int) -> int {
    let common: int = if month == 1 { 0 } else if month == 2 { 31 } else if month == 3 { 59 } else if month == 4 { 90 }
        else if month == 5 { 120 } else if month == 6 { 151 } else if month == 7 { 181 } else if month == 8 { 212 }
        else if month == 9 { 243 } else if month == 10 { 273 } else if month == 11 { 304 } else { 334 };
    if month > 2 && is_leap(year) { common + 1 } else { common }
}

/// The number of days from January 1 of year 1 to January 1 of `year` (negative before year 1).
pub open spec fn days_before_year(year: int) -> int {
    let p = year - 1;
    365 * p + p / 4 - p / 100 + p / 400
}

/// The day number of a year, month and day that form a date chrono can hold.
pub open spec fn ce_days_of(year: int, month: int, day: int) -> Option<int> {
    if MIN_YEAR <= year <= MAX_YEAR && 1 <= month <= 12 && 1 <= day <= month_days(year, month) {
        Some(days_before_year(year) + days_before_month(year, month) + day)
    } else {
        None
    }
}

/// Relies on chrono's `NaiveDate::from_ymd_opt`, which accepts a year of chrono's range with a
/// month and a day of that month, and on `num_days_from_ce`, which counts the days of the
/// proleptic Gregorian calendar from January 1 of year 1 as day 1.
#[verifier::external_body]
fn chrono_days_from_ymd(year: i32, month: u32, day: u32) -> (r: Option<i32>)
    ensures
        match r {
            Some(n) => ce_days_of(year as int, month as int, day as int) == Some(n as int)
                && MIN_DAYS <= n <= MAX_DAYS,
            None => ce_days_of(year as int, month as int, day as int) is None,
        },
{
    chrono::NaiveDate::from_ymd_opt(year, month, day).map(|d| d.num_days_from_ce())
}

/// Relies on chrono's `NaiveDate::from_num_days_from_ce_opt`, which holds every day number of
/// chrono's range, and on `year`, `month` and `day`, the date of that day number.
#[verifier::external_body]
fn chrono_ymd_from_days(days: i32) -> (r: (i32, u32, u32))
    requires
        MIN_DAYS <= days <= MAX_DAYS,
    ensures
        ce_days_of(r.0 as int, r.1 as int, r.2 as int) == Some(days as int),
{
    let d = chrono::NaiveDate::from_num_days_from_ce_opt(days).unwrap();
    (d.year(), d.month(), d.day())
}

/// Relies on chrono's `Local::now`: the local date (a date chrono holds) and the hour and
/// minute of the local time.
#[verifier::external_body]
fn local_now() -> (r: (i32, u32, u32))
    ensures
        MIN_DAYS <= r.0 <= MAX_DAYS,
        r.1 < 24,
        r.2 < 60,
{
    let n = chrono::Local::now().naive_local();
    (n.date().num_days_from_ce(), n.hour(), n.minute())
}

/// Index of the weekday of a day number, Monday being 0 and Sunday 6.
pub open spec fn weekday_index(days: int) -> int {
    (days - 1) % 7
}

pub proof fn lemma_weekday_shift(days: int, k: int)
    requires
        0 <= k,
    ensures
        weekday_index(days + k) == (weekday_index(days) + k) % 7,
        0 <= weekday_index(days) < 7,
{
    lemma_add_mod_noop(days - 1, k, 7);
    lemma_add_mod_noop(weekday_index(days), k, 7);
    lemma_small_mod(weekday_index(days) as nat, 7);
}

impl Ranked for Date {
    open spec fn rank(&self) -> int {
        self.days as int
    }

    fn rank_of(&self) -> (r: i64) {
        self.days as i64
    }
}

impl ValidCheck for Date {
    open spec fn is_valid(&self) -> bool {
        self.days != EMPTY_DAYS && MIN_DAYS <= self.days <= MAX_DAYS
    }

    fn valid(&self) -> (r: bool) {
        self.days != EMPTY_DAYS && MIN_DAYS <= self.days && self.days <= MAX_DAYS
    }
}

impl Date {
    /// The earliest date, used as an open start of a range.
    pub fn min_date() -> (r: Date)
        ensures
            r.days == MIN_DAYS,
    {
        Date { days: MIN_DAYS }
    }

    /// The latest date, used as an open end of a range.
    pub fn max_date() -> (r: Date)
        ensures
            r.days == MAX_DAYS,
    {
        Date { days: MAX_DAYS }
    }

    /// The date that stands for "unchanged" in a partial update.
    pub fn empty_date() -> (r: Date)
        ensures
            r.days == EMPTY_DAYS,
    {
        Date { days: EMPTY_DAYS }
    }

    pub fn from_ymd(year: i32, month: u32, day: u32) -> (r: Option<Date>)
        ensures
            match r {
                Some(d) => ce_days_of(year as int, month as int, day as int) == Some(d.days as int)
                    && MIN_DAYS <= d.days <= MAX_DAYS,
                None => ce_days_of(year as int, month as int, day as int) is None,
            },
    {
        match chrono_days_from_ymd(year, month, day) {
            Some(n) => Some(Date { days: n }),
            None => None,
        }
    }

    /// The date with the given day number, if chrono can hold it.
    pub fn from_days(days: i32) -> (r: Option<Date>)
        ensures
            r is Some <==> MIN_DAYS <= days <= MAX_DAYS,
            r matches Some(d) ==> d.days == days,
    {
        if MIN_DAYS <= days && days <= MAX_DAYS {
            Some(Date { days })
        } else {
            None
        }
    }

    pub fn today() -> (r: Date)
        ensures
            MIN_DAYS <= r.days <= MAX_DAYS,
    {
        DateTime::now().date
    }

    /// The year, month and day of the date.
    pub fn ymd(&self) -> (r: (i32, u32, u32))
        requires
            MIN_DAYS <= self.days <= MAX_DAYS,
        ensures
            ce_days_of(r.0 as int, r.1 as int, r.2 as int) == Some(self.days as int),
            1 <= r.1 <= 12,
            1 <= r.2 <= 31,
            MIN_YEAR <= r.0 <= MAX_YEAR,
    {
        chrono_ymd_from_days(self.days)
    }

    pub fn year(&self) -> (r: i32)
        requires
            MIN_DAYS <= self.days <= MAX_DAYS,
        ensures
            exists|m: int, d: int| ce_days_of(r as int, m, d) == Some(self.days as int),
    {
        let ymd = self.ymd();
        proof {
            assert(ce_days_of(ymd.0 as int, ymd.1 as int, ymd.2 as int) == Some(self.days as int));
        }
        ymd.0
    }

    pub fn month(&self) -> (r: u32)
        requires
            MIN_DAYS <= self.days <= MAX_DAYS,
        ensures
            exists|y: int, d: int| ce_days_of(y, r as int, d) == Some(self.days as int),
    {
        let ymd = self.ymd();
        proof {
            assert(ce_days_of(ymd.0 as int, ymd.1 as int, ymd.2 as int) == Some(self.days as int));
        }
        ymd.1
    }

    pub fn day(&self) -> (r: u32)
        requires
            MIN_DAYS <= self.days <= MAX_DAYS,
        ensures
            exists|y: int, m: int| ce_days_of(y, m, r as int) == Some(self.days as int),
    {
        let ymd = self.ymd();
        proof {
            assert(ce_days_of(ymd.0 as int, ymd.1 as int, ymd.2 as int) == Some(self.days as int));
        }
        ymd.2
    }

    pub open spec fn spec_weekday_index(self) -> int {
        weekday_index(self.days as int)
    }

    /// The set holding this date's weekday alone.
    pub fn weekday(&self) -> (r: WeekdaySet)
        ensures
            r.is_well_formed(),
            forall|i: int| #[trigger] r.has_day(i) <==> i == self.spec_weekday_index(),
    {
        let idx = ((self.days as i64 - 1) % 7 + 7) % 7;
        proof {
            assert(idx as int == weekday_index(self.days as int));
        }
        let bits = bit_range(idx as u32, idx as u32);
        WeekdaySet { bits }
    }

    /// The date `n` days later (earlier for a negative `n`).
    pub fn add_days(self, n: i32) -> (r: Date)
        requires
            MIN_DAYS <= self.days + n <= MAX_DAYS,
        ensures
            r.days == self.days + n,
    {
        Date { days: self.days + n }
    }
}

/// Whether some day of the range falls on the weekday of index `w`.
pub open spec fn range_has_weekday(range: DateRange, w: int) -> bool {
    exists|d: int| range.start.days <= d <= range.end.days && weekday_index(d) == w
}

impl InclusiveRange<Date> {
    /// The weekdays on which at least one day of the range falls.
    pub fn weekday_set(&self) -> (r: WeekdaySet)
        requires
            self.start.days <= self.end.days,
        ensures
            r.is_well_formed(),
            forall|w: int| #[trigger] r.has_day(w) <==> 0 <= w < 7 && range_has_weekday(*self, w),
    {
        let sd = ((self.start.days as i64 - 1) % 7 + 7) % 7;
        let diff = self.end.days as i64 - self.start.days as i64;
        let ghost s = self.start.days as int;
        proof {
            lemma_weekday_shift(s, 0);
            assert(sd as int == weekday_index(s));
        }
        if diff >= 6 {
            let r = WeekdaySet::all();
            assert forall|w: int| #[trigger] r.has_day(w) <==> 0 <= w < 7 && range_has_weekday(*self, w) by {
                if 0 <= w < 7 {
                    let k = if w >= sd { w - sd } else { w - sd + 7 };
                    lemma_weekday_shift(s, k);
                    assert(weekday_index(s + k) == w);
                }
            }
            r
        } else if sd + diff <= 6 {
            let bits = bit_range(sd as u32, (sd + diff) as u32);
            let r = WeekdaySet { bits };
            assert forall|w: int| #[trigger] r.has_day(w) <==> 0 <= w < 7 && range_has_weekday(*self, w) by {
                if 0 <= w < 7 && sd <= w <= sd + diff {
                    lemma_weekday_shift(s, w - sd);
                    assert(weekday_index(s + (w - sd)) == w);
                }
                if 0 <= w < 7 && range_has_weekday(*self, w) {
                    let d = choose|d: int| self.start.days <= d <= self.end.days && weekday_index(d) == w;
                    lemma_weekday_shift(s, d - s);
                }
            }
            r
        } else {
            let a = bit_range(sd as u32, 6);
            let b = bit_range(0, ((sd + diff) % 7) as u32);
            let from_start = WeekdaySet { bits: a };
            let to_end = WeekdaySet { bits: b };
            let r = from_start.union(&to_end);
            assert forall|w: int| #[trigger] r.has_day(w) <==> 0 <= w < 7 && range_has_weekday(*self, w) by {
                if 0 <= w < 7 && sd <= w {
                    lemma_weekday_shift(s, w - sd);
                    assert(weekday_index(s + (w - sd)) == w);
                }
                if 0 <= w < 7 && w <= sd + diff - 7 {
                    lemma_weekday_shift(s, w - sd + 7);
                    assert(weekday_index(s + (w - sd + 7)) == w);
                }
                if 0 <= w < 7 && range_has_weekday(*self, w) {
                    let d = choose|d: int| self.start.days <= d <= self.end.days && weekday_index(d) == w;
                    lemma_weekday_shift(s, d - s);
                }
            }
            r
        }
    }
}

/// A time of day. Times are ordered as if the day started at 04:00: 04:00 comes first and 03:59
/// last.
#[derive(Clone, Copy, PartialEq, Eq, Structural, Debug)]
pub struct Time {
    pub hour: u8,
    pub minute: u8,
}

pub type TimeInterval = ExclusiveRange<Time>;

/// Hour on the clock at which a day starts for ordering purposes.
pub const DAY_START_HOUR: u8 = 4;

/// The hour counted from the start of the day at 04:00.
pub open spec fn shift(hour: int) -> int {
    (hour + 20) % 24
}

impl Ranked for Time {
    open spec fn rank(&self) -> int {
        shift(self.hour as int) * 60 + self.minute
    }

    fn rank_of(&self) -> (r: i64) {
        self.shifted_hour() as i64 * 60 + self.minute as i64
    }
}

impl ValidCheck for Time {
    open spec fn is_valid(&self) -> bool {
        self.hour < 24 && self.minute < 60
    }

    fn valid(&self) -> (r: bool) {
        self.hour < 24 && self.minute < 60
    }
}

impl Time {
    pub fn shifted_hour(&self) -> (r: u8)
        ensures
            r as int == shift(self.hour as int),
    {
        ((self.hour as u16 + 24 - DAY_START_HOUR as u16) % 24) as u8
    }

    /// The time that stands for "unchanged" in a partial update.
    pub fn empty() -> (r: Time)
        ensures
            r.hour == 25 && r.minute == 0,
    {
        Time { hour: 25, minute: 0 }
    }

    /// 04:00, the first time of a day.
    pub fn min_value() -> (r: Time)
        ensures
            r.hour == DAY_START_HOUR && r.minute == 0,
            r.rank() == 0,
    {
        Time { hour: DAY_START_HOUR, minute: 0 }
    }

    /// 03:59, the last time of a day.
    pub fn max_value() -> (r: Time)
        ensures
            r.hour == 3 && r.minute == 59,
            r.rank() == 1439,
    {
        Time { hour: 3, minute: 59 }
    }

    /// Minutes from `other` to `self` in the order of the day.
    pub fn sub_minute(&self, other: Time) -> (r: i64)
        ensures
            r == self.rank() - other.rank(),
    {
        self.rank_of() - other.rank_of()
    }

    pub fn now() -> (r: Time)
        ensures
            r.is_valid(),
    {
        DateTime::now().time
    }
}

/// Among valid times, 04:00 comes first and 03:59 comes last.
pub proof fn lemma_day_bounds(t: Time)
    requires
        t.is_valid(),
    ensures
        (Time { hour: 4, minute: 0 }).rank() == 0,
        (Time { hour: 3, minute: 59 }).rank() == 1439,
        0 <= t.rank() <= 1439,
        t.rank() == 0 <==> t == (Time { hour: 4, minute: 0 }),
        t.rank() == 1439 <==> t == (Time { hour: 3, minute: 59 }),
{
}

/// A date and a time of day.
#[derive(Clone, Copy, PartialEq, Eq, Structural, Debug)]
pub struct DateTime {
    pub date: Date,
    pub time: Time,
}

impl DateTime {
    /// The local date and time.
    pub fn now() -> (r: DateTime)
        ensures
            MIN_DAYS <= r.date.days <= MAX_DAYS,
            r.time.is_valid(),
    {
        let (days, hour, minute) = local_now();
        DateTime { date: Date { days }, time: Time { hour: hour as u8, minute: minute as u8 } }
    }
}

/// A set of weekdays: bit 0 is Monday, bit 6 is Sunday.
#[derive(Clone, Copy, PartialEq, Eq, Structural, Debug)]
pub struct WeekdaySet {
    pub bits: u8,
}

impl WeekdaySet {
    pub open spec fn is_well_formed(self) -> bool {
        self.bits < 128
    }

    /// Whether the weekday of index `i` (Monday 0) is in the set.
    pub open spec fn has_day(self, i: int) -> bool {
        0 <= i < 7 && bit_set(self.bits, i)
    }

    pub open spec fn spec_is_empty(self) -> bool {
        forall|i: int| !#[trigger] self.has_day(i)
    }

    pub open spec fn spec_is_all(self) -> bool {
        forall|i: int| 0 <= i < 7 ==> #[trigger] self.has_day(i)
    }

    pub fn from_bits(bits: u8) -> (r: Option<WeekdaySet>)
        ensures
            r is Some <==> bits < 128,
            r matches Some(s) ==> s.bits == bits,
    {
        if bits < 128 {
            Some(WeekdaySet { bits })
        } else {
            None
        }
    }

    /// Whether the weekday of index `i` (Monday 0) is in the set.
    pub fn has(&self, i: u32) -> (r: bool)
        ensures
            r == self.has_day(i as int),
    {
        i < 7 && (self.bits >> (i as u8)) & 1u8 == 1u8
    }

    pub fn bits(&self) -> (r: u8)
        ensures
            r == self.bits,
    {
        self.bits
    }

    pub fn empty() -> (r: WeekdaySet)
        ensures
            r.is_well_formed(),
            r.spec_is_empty(),
            r.bits == 0,
    {
        proof {
            lemma_bits_zero();
        }
        WeekdaySet { bits: 0 }
    }

    pub fn all() -> (r: WeekdaySet)
        ensures
            r.is_well_formed(),
            r.spec_is_all(),
            r.bits == 127,
    {
        let bits = bit_range(0, 6);
        proof {
            lemma_bits_all(bits);
        }
        WeekdaySet { bits }
    }

    pub fn is_empty(&self) -> (r: bool)
        requires
            self.is_well_formed(),
        ensures
            r == self.spec_is_empty(),
    {
        proof {
            lemma_bits_empty(self.bits);
            if self.bits == 0 {
                assert forall|i: int| !#[trigger] self.has_day(i) by {}
            } else {
                let i = choose|i: int| 0 <= i < 7 && bit_set(self.bits, i);
                assert(self.has_day(i));
            }
        }
        self.bits == 0
    }

    pub fn is_all(&self) -> (r: bool)
        requires
            self.is_well_formed(),
        ensures
            r == self.spec_is_all(),
    {
        proof {
            lemma_bits_all(self.bits);
            if self.bits != 127 {
                let i = choose|i: int| 0 <= i < 7 && !bit_set(self.bits, i);
                assert(!self.has_day(i));
            }
        }
        self.bits == 127
    }

    pub fn union(&self, other: &WeekdaySet) -> (r: WeekdaySet)
        requires
            self.is_well_formed(),
            other.is_well_formed(),
        ensures
            r.is_well_formed(),
            forall|i: int| #[trigger] r.has_day(i) <==> self.has_day(i) || other.has_day(i),
    {
        let bits = self.bits | other.bits;
        let a = self.bits;
        let b = other.bits;
        assert(a | b < 128) by (bit_vector)
            requires a < 128u8, b < 128u8;
        assert forall|i: int| 0 <= i < 8 implies (bit_set(bits, i) <==> bit_set(a, i) || bit_set(b, i)) by {
            let ib = i as u8;
            assert(((a | b) >> ib) & 1u8 == 1u8 <==> ((a >> ib) & 1u8 == 1u8 || (b >> ib) & 1u8 == 1u8)) by (bit_vector)
                requires ib < 8u8;
        }
        WeekdaySet { bits }
    }

    pub fn intersection(&self, other: &WeekdaySet) -> (r: WeekdaySet)
        requires
            self.is_well_formed(),
            other.is_well_formed(),
        ensures
            r.is_well_formed(),
            forall|i: int| #[trigger] r.has_day(i) <==> self.has_day(i) && other.has_day(i),
    {
        let bits = self.bits & other.bits;
        let a = self.bits;
        let b = other.bits;
        assert(a & b < 128) by (bit_vector)
            requires a < 128u8, b < 128u8;
        assert forall|i: int| 0 <= i < 8 implies (bit_set(bits, i) <==> bit_set(a, i) && bit_set(b, i)) by {
            let ib = i as u8;
            assert(((a & b) >> ib) & 1u8 == 1u8 <==> ((a >> ib) & 1u8 == 1u8 && (b >> ib) & 1u8 == 1u8)) by (bit_vector)
                requires ib < 8u8;
        }
        WeekdaySet { bits }
    }
}

proof fn lemma_bits_zero()
    ensures
        forall|i: int| 0 <= i < 8 ==> !bit_set(0u8, i),
{
    assert forall|i: int| 0 <= i < 8 implies !bit_set(0u8, i) by {
        let ib = i as u8;
        assert((0u8 >> ib) & 1u8 == 0u8) by (bit_vector);
    }
}

proof fn lemma_bits_empty(bits: u8)
    requires
        bits < 128,
    ensures
        bits == 0 <==> forall|i: int| 0 <= i < 7 ==> !bit_set(bits, i),
        bits != 0 ==> exists|i: int| 0 <= i < 7 && bit_set(bits, i),
{
    lemma_bits_zero();
    if bits != 0 {
        assert(bits != 0u8 && bits < 128u8 ==> ((bits >> 0u8) & 1u8 == 1u8 || (bits >> 1u8) & 1u8 == 1u8
            || (bits >> 2u8) & 1u8 == 1u8 || (bits >> 3u8) & 1u8 == 1u8 || (bits >> 4u8) & 1u8 == 1u8
            || (bits >> 5u8) & 1u8 == 1u8 || (bits >> 6u8) & 1u8 == 1u8)) by (bit_vector);
        assert(bit_set(bits, 0) || bit_set(bits, 1) || bit_set(bits, 2) || bit_set(bits, 3)
            || bit_set(bits, 4) || bit_set(bits, 5) || bit_set(bits, 6));
    }
}

proof fn lemma_bits_all(bits: u8)
    requires
        bits < 128,
    ensures
        bits == 127 <==> forall|i: int| 0 <= i < 7 ==> bit_set(bits, i),
        bits != 127 ==> exists|i: int| 0 <= i < 7 && !bit_set(bits, i),
{
    if bits == 127 {
        assert forall|i: int| 0 <= i < 7 implies bit_set(bits, i) by {
            let ib = i as u8;
            assert(ib < 7u8 ==> (127u8 >> ib) & 1u8 == 1u8) by (bit_vector);
        }
    } else {
        assert(bits != 127u8 && bits < 128u8 ==> ((bits >> 0u8) & 1u8 == 0u8 || (bits >> 1u8) & 1u8 == 0u8
            || (bits >> 2u8) & 1u8 == 0u8 || (bits >> 3u8) & 1u8 == 0u8 || (bits >> 4u8) & 1u8 == 0u8
            || (bits >> 5u8) & 1u8 == 0u8 || (bits >> 6u8) & 1u8 == 0u8)) by (bit_vector);
        assert(!bit_set(bits, 0) || !bit_set(bits, 1) || !bit_set(bits, 2) || !bit_set(bits, 3)
            || !bit_set(bits, 4) || !bit_set(bits, 5) || !bit_set(bits, 6));
    }
}

} // verus!
