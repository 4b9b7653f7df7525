//! Calendar dates (backed by `chrono`) and the subset of moment.js date
//! tokens used by Obsidian daily notes.
use vstd::prelude::*;
use chrono::Datelike;
use crate::text::{extend_chars, str_chars, chars_string};

verus! {

/// A leap year of the proleptic Gregorian calendar (year 0 is 1 BCE).
pub open spec fn is_leap_year(year: int) -> bool {
    year % 4 == 0 && (year % 100 != 0 || year % 400 == 0)
}

/// Number of days in `month` (1 to 12) of `year`.
pub open spec fn month_length(year: int, month: int) -> int {
    if month == 2 {
        if is_leap_year(year) {
            29
        } else {
            28
        }
    } else if month == 4 || month == 6 || month == 9 || month == 11 {
        30
    } else {
        31
    }
}

/// The years `chrono::NaiveDate` holds.
pub open spec fn year_in_range(year: int) -> bool {
    -262143 <= year <= 262142
}

/// `year-month-day` is a day of the calendar that `chrono::NaiveDate`
/// holds.
pub open spec fn valid_ymd(year: i32, month: u32, day: u32) -> bool {
    &&& year_in_range(year as int)
    &&& 1 <= month <= 12
    &&& 1 <= day <= month_length(year as int, month as int)
}

/// Calls `chrono::NaiveDate::from_ymd_opt`; claims that it gives a date
/// exactly when the year is in chrono's range, the month is 1 to 12 and the
/// day exists in that month (leap years counted).
#[verifier::external_body]
fn ymd_is_valid(year: i32, month: u32, day: u32) -> (b: bool)
    ensures
        b == valid_ymd(year, month, day),
{
    chrono::NaiveDate::from_ymd_opt(year, month, day).is_some()
}

/// A calendar date that `chrono` accepts.
#[derive(Clone, Copy, Debug, PartialEq, Eq)]
pub struct Date {
    year: i32,
    month: u32,
    day: u32,
}

impl Date {
    #[verifier::type_invariant]
    spec fn valid(self) -> bool {
        &&& valid_ymd(self.year, self.month, self.day)
        &&& 1 <= self.month <= 12
        &&& 1 <= self.day <= 31
    }

    pub closed spec fn y(self) -> i32 {
        self.year
    }

    pub closed spec fn m(self) -> u32 {
        self.month
    }

    pub closed spec fn d(self) -> u32 {
        self.day
    }

    /// The date `year-month-day`, if it exists.
    pub fn from_ymd(year: i32, month: u32, day: u32) -> (r: Option<Date>)
        ensures
            r is Some <==> valid_ymd(year, month, day),
            r matches Some(x) ==> x.y() == year && x.m() == month && x.d() == day,
    {
        if ymd_is_valid(year, month, day) {
            Some(Date { year, month, day })
        } else {
            None
        }
    }

    pub fn year(&self) -> (r: i32)
        ensures
            r == self.y(),
    {
        self.year
    }

    pub fn month(&self) -> (r: u32)
        ensures
            r == self.m(),
            1 <= r <= 12,
    {
        proof {
            use_type_invariant(self);
        }
        self.month
    }

    pub fn day(&self) -> (r: u32)
        ensures
            r == self.d(),
            1 <= r <= 31,
    {
        proof {
            use_type_invariant(self);
        }
        self.day
    }

}

/// Days from 0000-03-01 to `year-month-day` in the proleptic Gregorian
/// calendar: years are counted from March, so that the leap day comes last
/// (division rounds down, also for years before 1).
pub open spec fn day_number(year: int, month: int, day: int) -> int {
    let y = if month <= 2 {
        year - 1
    } else {
        year
    };
    let mp = if month <= 2 {
        month + 9
    } else {
        month - 3
    };
    365 * y + y / 4 - y / 100 + y / 400 + (153 * mp + 2) / 5 + day - 1
}

/// `t` is a day that chrono holds, with day number `k`.
pub open spec fn numbered_as(t: (i32, u32, u32), k: int) -> bool {
    valid_ymd(t.0, t.1, t.2) && day_number(t.0 as int, t.1 as int, t.2 as int) == k
}

/// The day that chrono holds with day number `k`, if there is one.
pub open spec fn date_numbered(k: int) -> Option<(i32, u32, u32)> {
    if exists|t: (i32, u32, u32)| #[trigger] numbered_as(t, k) {
        Some(choose|t: (i32, u32, u32)| #[trigger] numbered_as(t, k))
    } else {
        None
    }
}

/// Day of the week of a date, Monday = 0 (0000-03-01 was a Wednesday).
pub open spec fn weekday_of(year: i32, month: u32, day: u32) -> u32 {
    ((day_number(year as int, month as int, day as int) + 2) % 7) as u32
}

/// Calls `Datelike::weekday` and `Weekday::num_days_from_monday` of
/// `chrono` on the date; claims that the result is `weekday_of` the date
/// (Monday = 0 … Sunday = 6).
#[verifier::external_body]
fn chrono_weekday(year: i32, month: u32, day: u32) -> (r: u32)
    requires
        valid_ymd(year, month, day),
    ensures
        r == weekday_of(year, month, day),
{
    chrono::NaiveDate::from_ymd_opt(year, month, day).expect("valid date").weekday().num_days_from_monday()
}

/// The date `n` days after a date, when chrono holds it.
pub open spec fn days_after(year: i32, month: u32, day: u32, n: u64) -> Option<(i32, u32, u32)> {
    date_numbered(day_number(year as int, month as int, day as int) + n)
}

/// Calls `NaiveDate::checked_add_days` of `chrono`; claims the result is
/// `days_after`: the day `n` days on, or none when chrono's range ends
/// first.
#[verifier::external_body]
fn chrono_add_days(year: i32, month: u32, day: u32, n: u64) -> (r: Option<(i32, u32, u32)>)
    requires
        valid_ymd(year, month, day),
    ensures
        r == days_after(year, month, day, n),
{
    chrono::NaiveDate::from_ymd_opt(year, month, day)
        .expect("valid date")
        .checked_add_days(chrono::Days::new(n))
        .map(|x| (x.year(), x.month(), x.day()))
}

/// The date `n` days before a date, when chrono holds it.
pub open spec fn days_before(year: i32, month: u32, day: u32, n: u64) -> Option<(i32, u32, u32)> {
    date_numbered(day_number(year as int, month as int, day as int) - n)
}

/// Calls `NaiveDate::checked_sub_days` of `chrono`; claims the result is
/// `days_before`: the day `n` days back, or none when chrono's range ends
/// first.
#[verifier::external_body]
fn chrono_sub_days(year: i32, month: u32, day: u32, n: u64) -> (r: Option<(i32, u32, u32)>)
    requires
        valid_ymd(year, month, day),
    ensures
        r == days_before(year, month, day, n),
{
    chrono::NaiveDate::from_ymd_opt(year, month, day)
        .expect("valid date")
        .checked_sub_days(chrono::Days::new(n))
        .map(|x| (x.year(), x.month(), x.day()))
}

/// Whole days from the first date to the second.
pub open spec fn days_between(y1: i32, m1: u32, d1: u32, y2: i32, m2: u32, d2: u32) -> i64 {
    (day_number(y2 as int, m2 as int, d2 as int) - day_number(y1 as int, m1 as int, d1 as int)) as i64
}

/// The weekday `n` days after day number `k` is `n` weekdays on.
pub proof fn lemma_weekday_shift(k: int, n: int)
    requires
        n >= 0,
    ensures
        ((k + n + 2) % 7) == ((((k + 2) % 7) + n) % 7),
{
    vstd::arithmetic::div_mod::lemma_add_mod_noop(k + 2, n, 7);
    vstd::arithmetic::div_mod::lemma_mod_twice(n, 7);
    vstd::arithmetic::div_mod::lemma_add_mod_noop((k + 2) % 7, n, 7);
    vstd::arithmetic::div_mod::lemma_mod_twice(k + 2, 7);
}

/// The first of the month after `year-month`.
pub open spec fn next_month(year: int, month: int) -> (int, int) {
    if month == 12 {
        (year + 1, 1)
    } else {
        (year, month + 1)
    }
}

/// The month before `year-month`.
pub open spec fn prev_month(year: int, month: int) -> (int, int) {
    if month == 1 {
        (year - 1, 12)
    } else {
        (year, month - 1)
    }
}

/// Consecutive days of a month have consecutive day numbers, and the first
/// of the next month follows the last day: a month holds `month_length`
/// days.
pub proof fn lemma_month_step(year: int, month: int)
    requires
        1 <= month <= 12,
    ensures
        day_number(next_month(year, month).0, next_month(year, month).1, 1) - day_number(year, month, 1)
            == month_length(year, month),
{
    if month == 2 {
        let y = year;
        assert(y / 4 - (y - 1) / 4 == if y % 4 == 0 { 1int } else { 0 });
        assert(y / 100 - (y - 1) / 100 == if y % 100 == 0 { 1int } else { 0 });
        assert(y / 400 - (y - 1) / 400 == if y % 400 == 0 { 1int } else { 0 });
        assert(y % 400 == 0 ==> y % 100 == 0);
        assert(y % 100 == 0 ==> y % 4 == 0);
    }
}

/// Day numbers of the days chrono holds lie well within 10^8 of 0.
pub proof fn lemma_day_number_bounds(year: i32, month: u32, day: u32)
    requires
        valid_ymd(year, month, day),
    ensures
        -100_000_000 <= day_number(year as int, month as int, day as int) <= 100_000_000,
{
    let y: int = if month <= 2 {
        year - 1
    } else {
        year as int
    };
    let mp: int = if month <= 2 {
        month + 9
    } else {
        month - 3
    };
    assert(-262144 <= y <= 262142);
    assert(0 <= mp <= 11);
    assert(-65536 <= y / 4 <= 65536) by (nonlinear_arith)
        requires
            -262144 <= y <= 262142,
    ;
    assert(-2622 <= y / 100 <= 2622) by (nonlinear_arith)
        requires
            -262144 <= y <= 262142,
    ;
    assert(-656 <= y / 400 <= 656) by (nonlinear_arith)
        requires
            -262144 <= y <= 262142,
    ;
    assert(0 <= (153 * mp + 2) / 5 <= 337) by (nonlinear_arith)
        requires
            0 <= mp <= 11,
    ;
}

/// Calls `Sub` on two `chrono` dates and `TimeDelta::num_days`; claims the
/// result is `days_between`.
#[verifier::external_body]
fn chrono_days_between(y1: i32, m1: u32, d1: u32, y2: i32, m2: u32, d2: u32) -> (r: i64)
    requires
        valid_ymd(y1, m1, d1),
        valid_ymd(y2, m2, d2),
    ensures
        r == days_between(y1, m1, d1, y2, m2, d2),
{
    let a = chrono::NaiveDate::from_ymd_opt(y1, m1, d1).expect("valid date");
    let b = chrono::NaiveDate::from_ymd_opt(y2, m2, d2).expect("valid date");
    (b - a).num_days()
}

/// What chrono's `%Y` prints: the year zero-padded to four digits when it
/// lies in 0..=9999, else with its sign and at least four digits.
pub open spec fn year_text(year: int) -> Seq<char> {
    if 0 <= year <= 9999 {
        padded(year, 4)
    } else if year > 9999 {
        seq!['+'] + digits(year as nat)
    } else {
        padded(year, 5)
    }
}

/// What chrono prints for a date with `%Y-%m-%d`.
pub open spec fn iso_text(year: i32, month: u32, day: u32) -> Seq<char> {
    year_text(year as int) + seq!['-'] + padded(month as int, 2) + seq!['-'] + padded(day as int, 2)
}

/// Calls `NaiveDate::format("%Y-%m-%d")` of `chrono`; claims the text is
/// `iso_text`: year, two-digit month and two-digit day, joined by `-`.
#[verifier::external_body]
fn chrono_iso(year: i32, month: u32, day: u32) -> (r: String)
    requires
        valid_ymd(year, month, day),
    ensures
        r@ == iso_text(year, month, day),
{
    chrono::NaiveDate::from_ymd_opt(year, month, day).expect("valid date").format("%Y-%m-%d").to_string()
}

/// The date chrono reads from a text with `%Y-%m-%d`, if any.
pub uninterp spec fn parsed_ymd(s: Seq<char>) -> Option<(i32, u32, u32)>;

/// Calls `NaiveDate::parse_from_str(s, "%Y-%m-%d")` of `chrono`; claims the
/// result is `parsed_ymd`, and that a date printed with the same format
/// (`iso_text`) reads back as that date.
#[verifier::external_body]
fn chrono_parse_ymd(s: &str) -> (r: Option<(i32, u32, u32)>)
    ensures
        r == parsed_ymd(s@),
        forall|y: i32, m: u32, d: u32|
            valid_ymd(y, m, d) && s@ == #[trigger] iso_text(y, m, d) ==> r == Some((y, m, d)),
{
    chrono::NaiveDate::parse_from_str(s, "%Y-%m-%d").ok().map(|x| (x.year(), x.month(), x.day()))
}

/// A date from a `(year, month, day)` triple, when it exists.
pub open spec fn date_is(r: Option<Date>, t: Option<(i32, u32, u32)>) -> bool {
    match t {
        Some((y, m, d)) => if valid_ymd(y, m, d) {
            r matches Some(x) && x.y() == y && x.m() == m && x.d() == d
        } else {
            r is None
        },
        None => r is None,
    }
}

fn date_of(t: Option<(i32, u32, u32)>) -> (r: Option<Date>)
    ensures
        date_is(r, t),
{
    match t {
        Some((y, m, d)) => Date::from_ymd(y, m, d),
        None => None,
    }
}

impl Date {
    /// Day of the week, Monday = 0.
    pub fn weekday_from_monday(&self) -> (r: u32)
        ensures
            r == weekday_of(self.y(), self.m(), self.d()),
            r < 7,
    {
        proof {
            use_type_invariant(self);
        }
        chrono_weekday(self.year, self.month, self.day)
    }

    /// The date `n` days later, if representable.
    pub fn checked_add_days(&self, n: u64) -> (r: Option<Date>)
        ensures
            date_is(r, days_after(self.y(), self.m(), self.d(), n)),
            days_after(self.y(), self.m(), self.d(), n) is Some ==> r is Some,
            r matches Some(x) ==> days_between(self.y(), self.m(), self.d(), x.y(), x.m(), x.d()) == n
                && weekday_of(x.y(), x.m(), x.d()) == (weekday_of(self.y(), self.m(), self.d()) + n)
                % 7,
    {
        proof {
            use_type_invariant(self);
        }
        let t = chrono_add_days(self.year, self.month, self.day, n);
        proof {
            let k = day_number(self.year as int, self.month as int, self.day as int);
            if let Some(x) = t {
                assert(numbered_as(x, k + n));
                lemma_day_number_bounds(self.year, self.month, self.day);
                lemma_day_number_bounds(x.0, x.1, x.2);
                lemma_weekday_shift(k, n as int);
            }
        }
        date_of(t)
    }

    /// The date `n` days earlier, if representable.
    pub fn checked_sub_days(&self, n: u64) -> (r: Option<Date>)
        ensures
            date_is(r, days_before(self.y(), self.m(), self.d(), n)),
            days_before(self.y(), self.m(), self.d(), n) is Some ==> r is Some,
            r matches Some(x) ==> days_between(x.y(), x.m(), x.d(), self.y(), self.m(), self.d()) == n
                && (weekday_of(x.y(), x.m(), x.d()) + n) % 7 == weekday_of(self.y(), self.m(), self.d())
                % 7,
    {
        proof {
            use_type_invariant(self);
        }
        let t = chrono_sub_days(self.year, self.month, self.day, n);
        proof {
            let k = day_number(self.year as int, self.month as int, self.day as int);
            if let Some(x) = t {
                assert(numbered_as(x, k - n));
                lemma_day_number_bounds(self.year, self.month, self.day);
                lemma_day_number_bounds(x.0, x.1, x.2);
                lemma_weekday_shift(k - n, n as int);
            }
        }
        date_of(t)
    }

    /// Whole days from `self` to `later`.
    pub fn days_until(&self, later: &Date) -> (r: i64)
        ensures
            r == days_between(self.y(), self.m(), self.d(), later.y(), later.m(), later.d()),
    {
        proof {
            use_type_invariant(self);
            use_type_invariant(later);
        }
        chrono_days_between(self.year, self.month, self.day, later.year, later.month, later.day)
    }

    /// The date as `YYYY-MM-DD`.
    pub fn iso(&self) -> (r: String)
        ensures
            r@ == iso_text(self.y(), self.m(), self.d()),
    {
        proof {
            use_type_invariant(self);
        }
        chrono_iso(self.year, self.month, self.day)
    }

    /// Read a `YYYY-MM-DD` date. A date's own `iso` text reads back as it.
    pub fn parse_iso(s: &str) -> (r: Option<Date>)
        ensures
            date_is(r, parsed_ymd(s@)),
            forall|y: i32, m: u32, d: u32|
                valid_ymd(y, m, d) && s@ == #[trigger] iso_text(y, m, d) ==> (r matches Some(x)
                    && x.y() == y && x.m() == m && x.d() == d),
    {
        date_of(chrono_parse_ymd(s))
    }
}

/// The decimal digit character for `d < 10`.
pub open spec fn digit_char(d: nat) -> char {
    (48 + d) as char
}

/// Decimal digits of `n`, most significant first.
pub open spec fn digits(n: nat) -> Seq<char>
    decreases n,
{
    if n < 10 {
        seq![digit_char(n)]
    } else {
        digits(n / 10).push(digit_char(n % 10))
    }
}

/// `s` left-padded with `'0'` to `w` characters.
pub open spec fn zero_pad(s: Seq<char>, w: nat) -> Seq<char> {
    if s.len() < w {
        Seq::new((w - s.len()) as nat, |i: int| '0') + s
    } else {
        s
    }
}

/// `format!("{:0w$}", n)`: the sign first, then digits zero-padded so the
/// whole is at least `w` characters.
pub open spec fn padded(n: int, w: nat) -> Seq<char> {
    if n < 0 {
        seq!['-'] + zero_pad(digits((-n) as nat), if w >= 1 { (w - 1) as nat } else { 0 })
    } else {
        zero_pad(digits(n as nat), w)
    }
}

fn digit(d: u64) -> (c: char)
    requires
        d < 10,
    ensures
        c == digit_char(d as nat),
{
    let b: u8 = 48u8 + d as u8;
    b as char
}

pub(crate) fn decimal_wide(n: u128) -> (r: Vec<char>)
    ensures
        r@ == digits(n as nat),
    decreases n,
{
    if n < 10 {
        let v = vec![digit(n as u64)];
        assert(v@ =~= digits(n as nat));
        v
    } else {
        let mut v = decimal_wide(n / 10);
        v.push(digit((n % 10) as u64));
        v
    }
}

pub(crate) fn decimal(n: u64) -> (r: Vec<char>)
    ensures
        r@ == digits(n as nat),
    decreases n,
{
    if n < 10 {
        let v = vec![digit(n)];
        assert(v@ =~= digits(n as nat));
        v
    } else {
        let mut v = decimal(n / 10);
        v.push(digit(n % 10));
        v
    }
}

fn pad_zeros(s: Vec<char>, w: usize) -> (r: Vec<char>)
    ensures
        r@ == zero_pad(s@, w as nat),
{
    if s.len() >= w {
        return s;
    }
    let mut r: Vec<char> = Vec::new();
    let k = w - s.len();
    let mut i: usize = 0;
    while i < k
        invariant
            i <= k,
            r@ == Seq::new(i as nat, |j: int| '0'),
        decreases k - i,
    {
        r.push('0');
        assert(r@ =~= Seq::new((i + 1) as nat, |j: int| '0'));
        i = i + 1;
    }
    extend_chars(&mut r, &s);
    r
}

fn format_padded(n: i64, w: usize) -> (r: Vec<char>)
    requires
        n > i64::MIN,
    ensures
        r@ == padded(n as int, w as nat),
{
    if n < 0 {
        let mut r = vec!['-'];
        let ds = decimal((0 - n) as u64);
        let p = pad_zeros(ds, if w >= 1 {
            w - 1
        } else {
            0
        });
        extend_chars(&mut r, &p);
        r
    } else {
        pad_zeros(decimal(n as u64), w)
    }
}

/// English month name for 1–12.
pub open spec fn month_name_of(month: u32) -> Option<Seq<char>> {
    if month == 1 {
        Some("January"@)
    } else if month == 2 {
        Some("February"@)
    } else if month == 3 {
        Some("March"@)
    } else if month == 4 {
        Some("April"@)
    } else if month == 5 {
        Some("May"@)
    } else if month == 6 {
        Some("June"@)
    } else if month == 7 {
        Some("July"@)
    } else if month == 8 {
        Some("August"@)
    } else if month == 9 {
        Some("September"@)
    } else if month == 10 {
        Some("October"@)
    } else if month == 11 {
        Some("November"@)
    } else if month == 12 {
        Some("December"@)
    } else {
        None
    }
}

/// English month name, or an error for a month outside 1–12.
pub fn month_name(month: u32) -> (r: Result<&'static str, String>)
    ensures
        match r {
            Ok(s) => month_name_of(month) == Some(s@),
            Err(e) => month_name_of(month) is None && e@ == "invalid month "@ + digits(month as nat),
        },
{
    if month == 1 {
        Ok("January")
    } else if month == 2 {
        Ok("February")
    } else if month == 3 {
        Ok("March")
    } else if month == 4 {
        Ok("April")
    } else if month == 5 {
        Ok("May")
    } else if month == 6 {
        Ok("June")
    } else if month == 7 {
        Ok("July")
    } else if month == 8 {
        Ok("August")
    } else if month == 9 {
        Ok("September")
    } else if month == 10 {
        Ok("October")
    } else if month == 11 {
        Ok("November")
    } else if month == 12 {
        Ok("December")
    } else {
        let mut e = str_chars("invalid month ");
        extend_chars(&mut e, &decimal(month as u64));
        Err(chars_string(&e))
    }
}

/// English weekday name, Monday = 0.
pub open spec fn weekday_name_of(index: u32) -> Option<Seq<char>> {
    if index == 0 {
        Some("Monday"@)
    } else if index == 1 {
        Some("Tuesday"@)
    } else if index == 2 {
        Some("Wednesday"@)
    } else if index == 3 {
        Some("Thursday"@)
    } else if index == 4 {
        Some("Friday"@)
    } else if index == 5 {
        Some("Saturday"@)
    } else if index == 6 {
        Some("Sunday"@)
    } else {
        None
    }
}

/// English weekday name of `date`; chrono's weekdays all have one.
pub fn weekday_name(date: &Date) -> (r: Result<&'static str, String>)
    ensures
        r matches Ok(s) && weekday_name_of(weekday_of(date.y(), date.m(), date.d())) == Some(s@),
{
    let w = date.weekday_from_monday();
    if w == 0 {
        Ok("Monday")
    } else if w == 1 {
        Ok("Tuesday")
    } else if w == 2 {
        Ok("Wednesday")
    } else if w == 3 {
        Ok("Thursday")
    } else if w == 4 {
        Ok("Friday")
    } else if w == 5 {
        Ok("Saturday")
    } else if w == 6 {
        Ok("Sunday")
    } else {
        Err(String::from_str("invalid weekday"))
    }
}

/// The moment.js tokens, longest match first.
#[derive(Clone, Copy, Debug, PartialEq, Eq)]
pub enum Token {
    /// `YYYY`
    Year,
    /// `MMMM`
    MonthName,
    /// `dddd`
    WeekdayName,
    /// `ddd`
    WeekdayShort,
    /// `MMM`
    MonthShort,
    /// `YY`
    YearShort,
    /// `MM`
    MonthPadded,
    /// `DD`
    DayPadded,
    /// `M`
    Month,
    /// `D`
    Day,
}

/// The text of each token.
pub open spec fn token_text(t: Token) -> Seq<char> {
    match t {
        Token::Year => "YYYY"@,
        Token::MonthName => "MMMM"@,
        Token::WeekdayName => "dddd"@,
        Token::WeekdayShort => "ddd"@,
        Token::MonthShort => "MMM"@,
        Token::YearShort => "YY"@,
        Token::MonthPadded => "MM"@,
        Token::DayPadded => "DD"@,
        Token::Month => "M"@,
        Token::Day => "D"@,
    }
}

/// Token order of the lookup.
pub open spec fn token_list() -> Seq<Token> {
    seq![
        Token::Year,
        Token::MonthName,
        Token::WeekdayName,
        Token::WeekdayShort,
        Token::MonthShort,
        Token::YearShort,
        Token::MonthPadded,
        Token::DayPadded,
        Token::Month,
        Token::Day,
    ]
}

/// `rest` begins with the token's text.
pub open spec fn starts_token(rest: Seq<char>, t: Token) -> bool {
    crate::text::starts_with(rest, token_text(t))
}

/// The first token of the list (from position `k`) that `rest` starts with.
pub open spec fn token_from(rest: Seq<char>, k: int) -> Option<Token>
    decreases 10 - k,
{
    if k < 0 || k >= 10 {
        None
    } else if starts_token(rest, token_list()[k]) {
        Some(token_list()[k])
    } else {
        token_from(rest, k + 1)
    }
}

pub proof fn lemma_token_from(rest: Seq<char>, k: int)
    ensures
        token_from(rest, k) matches Some(t) ==> starts_token(rest, t) && token_text(t).len()
            <= rest.len(),
    decreases 10 - k,
{
    if 0 <= k < 10 && !starts_token(rest, token_list()[k]) {
        lemma_token_from(rest, k + 1);
    }
}

fn token_chars(t: Token) -> (r: Vec<char>)
    ensures
        r@ == token_text(t),
{
    proof {
        reveal_strlit("YYYY");
        reveal_strlit("MMMM");
        reveal_strlit("dddd");
        reveal_strlit("ddd");
        reveal_strlit("MMM");
        reveal_strlit("YY");
        reveal_strlit("MM");
        reveal_strlit("DD");
        reveal_strlit("M");
        reveal_strlit("D");
    }
    let r = match t {
        Token::Year => vec!['Y', 'Y', 'Y', 'Y'],
        Token::MonthName => vec!['M', 'M', 'M', 'M'],
        Token::WeekdayName => vec!['d', 'd', 'd', 'd'],
        Token::WeekdayShort => vec!['d', 'd', 'd'],
        Token::MonthShort => vec!['M', 'M', 'M'],
        Token::YearShort => vec!['Y', 'Y'],
        Token::MonthPadded => vec!['M', 'M'],
        Token::DayPadded => vec!['D', 'D'],
        Token::Month => vec!['M'],
        Token::Day => vec!['D'],
    };
    assert(r@ =~= token_text(t));
    r
}

fn token_at_index(k: usize) -> (t: Token)
    requires
        k < 10,
    ensures
        t == token_list()[k as int],
{
    if k == 0 {
        Token::Year
    } else if k == 1 {
        Token::MonthName
    } else if k == 2 {
        Token::WeekdayName
    } else if k == 3 {
        Token::WeekdayShort
    } else if k == 4 {
        Token::MonthShort
    } else if k == 5 {
        Token::YearShort
    } else if k == 6 {
        Token::MonthPadded
    } else if k == 7 {
        Token::DayPadded
    } else if k == 8 {
        Token::Month
    } else {
        Token::Day
    }
}

/// The token that the pattern holds at position `at`, with its length.
pub fn match_token(pattern: &Vec<char>, at: usize) -> (r: Option<(Token, usize)>)
    requires
        at <= pattern.len(),
    ensures
        match r {
            Some((t, n)) => token_from(pattern@.skip(at as int), 0) == Some(t) && n == token_text(
                t,
            ).len(),
            None => token_from(pattern@.skip(at as int), 0) is None,
        },
{
    let ghost rest = pattern@.skip(at as int);
    let mut k: usize = 0;
    while k < 10
        invariant
            k <= 10,
            rest == pattern@.skip(at as int),
            at <= pattern.len(),
            token_from(rest, k as int) == token_from(rest, 0),
        decreases 10 - k,
    {
        let t = token_at_index(k);
        let text = token_chars(t);
        if crate::text::chars_match_at(pattern, at, &text) {
            proof {
                assert(rest.take(text@.len() as int) =~= pattern@.subrange(
                    at as int,
                    at + text@.len(),
                ));
            }
            return Some((t, text.len()));
        }
        proof {
            if text@.len() <= rest.len() {
                assert(rest.take(text@.len() as int) =~= pattern@.subrange(
                    at as int,
                    at + text@.len(),
                ));
            }
        }
        k = k + 1;
    }
    None
}

/// `n % 100` as Rust computes it (the sign follows `n`).
pub open spec fn rem100(n: int) -> int {
    if n >= 0 {
        n % 100
    } else {
        -((-n) % 100)
    }
}

/// What a token renders to for a date; `None` for a month or weekday
/// without a name.
pub open spec fn render(t: Token, y: i32, m: u32, d: u32, wd: u32) -> Option<Seq<char>> {
    match t {
        Token::Year => Some(padded(y as int, 4)),
        Token::YearShort => Some(padded(rem100(y as int), 2)),
        Token::MonthName => month_name_of(m),
        Token::MonthShort => match month_name_of(m) {
            Some(n) => Some(n.take(3)),
            None => None,
        },
        Token::MonthPadded => Some(padded(m as int, 2)),
        Token::Month => Some(digits(m as nat)),
        Token::DayPadded => Some(padded(d as int, 2)),
        Token::Day => Some(digits(d as nat)),
        Token::WeekdayName => weekday_name_of(wd),
        Token::WeekdayShort => match weekday_name_of(wd) {
            Some(n) => Some(n.take(3)),
            None => None,
        },
    }
}

/// `a` in front of an optional text.
pub open spec fn prefixed(a: Seq<char>, o: Option<Seq<char>>) -> Option<Seq<char>> {
    match o {
        Some(x) => Some(a + x),
        None => None,
    }
}

/// The pattern from position `i` on, with tokens rendered and other text
/// kept; `None` when a token cannot be rendered.
pub open spec fn moment_from(p: Seq<char>, i: int, y: i32, m: u32, d: u32, wd: u32) -> Option<Seq<char>>
    decreases p.len() - i,
{
    if i < 0 || i >= p.len() {
        Some(Seq::<char>::empty())
    } else {
        match token_from(p.skip(i), 0) {
            Some(t) => match render(t, y, m, d, wd) {
                None => None,
                Some(r) => if token_text(t).len() == 0 {
                    None
                } else {
                    proof {
                        lemma_token_from(p.skip(i), 0);
                    }
                    prefixed(r, moment_from(p, i + token_text(t).len(), y, m, d, wd))
                },
            },
            None => prefixed(seq![p[i]], moment_from(p, i + 1, y, m, d, wd)),
        }
    }
}

/// A date pattern rendered for a date: an empty pattern is an error.
pub open spec fn moment_text(p: Seq<char>, date: Date) -> Option<Seq<char>> {
    if p.len() == 0 {
        None
    } else {
        moment_from(p, 0, date.y(), date.m(), date.d(), weekday_of(date.y(), date.m(), date.d()))
    }
}

/// The text of one token for `date`; every token renders for a date that
/// chrono holds.
fn render_token(t: Token, date: &Date) -> (r: Result<Vec<char>, String>)
    ensures
        r matches Ok(s) && render(t, date.y(), date.m(), date.d(), weekday_of(date.y(), date.m(), date.d()))
            == Some(s@),
{
    proof {
        use_type_invariant(date);
    }
    let y = date.year();
    let m = date.month();
    let d = date.day();
    match t {
        Token::Year => Ok(format_padded(y as i64, 4)),
        Token::YearShort => {
            let r: i32 = y % 100;
            proof {
                assert(r as int == rem100(y as int));
            }
            Ok(format_padded(r as i64, 2))
        },
        Token::MonthName => {
            let n = month_name(m)?;
            Ok(str_chars(n))
        },
        Token::MonthShort => {
            let n = month_name(m)?;
            let cs = str_chars(n);
            proof {
                reveal_strlit("January");
                reveal_strlit("February");
                reveal_strlit("March");
                reveal_strlit("April");
                reveal_strlit("May");
                reveal_strlit("June");
                reveal_strlit("July");
                reveal_strlit("August");
                reveal_strlit("September");
                reveal_strlit("October");
                reveal_strlit("November");
                reveal_strlit("December");
            }
            let short = crate::text::sub_chars(&cs, 0, 3);
            assert(short@ =~= cs@.take(3));
            Ok(short)
        },
        Token::MonthPadded => Ok(format_padded(m as i64, 2)),
        Token::Month => Ok(decimal(m as u64)),
        Token::DayPadded => Ok(format_padded(d as i64, 2)),
        Token::Day => Ok(decimal(d as u64)),
        Token::WeekdayName => {
            let n = weekday_name(date)?;
            Ok(str_chars(n))
        },
        Token::WeekdayShort => {
            let n = weekday_name(date)?;
            let cs = str_chars(n);
            proof {
                reveal_strlit("Monday");
                reveal_strlit("Tuesday");
                reveal_strlit("Wednesday");
                reveal_strlit("Thursday");
                reveal_strlit("Friday");
                reveal_strlit("Saturday");
                reveal_strlit("Sunday");
            }
            let short = crate::text::sub_chars(&cs, 0, 3);
            assert(short@ =~= cs@.take(3));
            Ok(short)
        },
    }
}

/// Format `date` with a moment-style pattern.
///
/// Supported tokens (longest match first): `YYYY`, `YY`, `MMMM`, `MMM`, `MM`,
/// `M`, `dddd`, `ddd`, `DD`, `D`. Literal text is preserved. Only an empty
/// pattern is refused.
pub fn format_moment(pattern: &str, date: &Date) -> (r: Result<String, String>)
    ensures
        match r {
            Ok(s) => moment_text(pattern@, *date) == Some(s@),
            Err(e) => pattern@.len() == 0 && moment_text(pattern@, *date) is None && e@
                == "format is empty"@,
        },
{
    let p = str_chars(pattern);
    if p.len() == 0 {
        return Err(String::from_str("format is empty"));
    }
    let ghost y = date.y();
    let ghost m = date.m();
    let ghost d = date.d();
    let ghost wd = weekday_of(y, m, d);
    let mut out: Vec<char> = Vec::new();
    let mut i: usize = 0;
    while i < p.len()
        invariant
            i <= p.len(),
            p@ == pattern@,
            y == date.y() && m == date.m() && d == date.d() && wd == weekday_of(y, m, d),
            moment_from(p@, 0, y, m, d, wd) == prefixed(out@, moment_from(p@, i as int, y, m, d, wd)),
        decreases p.len() - i,
    {
        match match_token(&p, i) {
            Some((t, n)) => {
                let r = render_token(t, date);
                match r {
                    Err(e) => {
                        return Err(e);
                    },
                    Ok(text) => {
                        proof {
                            reveal_strlit("YYYY");
                            reveal_strlit("MMMM");
                            reveal_strlit("dddd");
                            reveal_strlit("ddd");
                            reveal_strlit("MMM");
                            reveal_strlit("YY");
                            reveal_strlit("MM");
                            reveal_strlit("DD");
                            reveal_strlit("M");
                            reveal_strlit("D");
                            assert(n > 0);
                            lemma_token_from(p@.skip(i as int), 0);
                            assert(token_text(t).len() <= p@.skip(i as int).len());
                            assert(out@ + (text@ + Seq::<char>::empty()) =~= (out@ + text@));
                            let rest = moment_from(p@, i + n, y, m, d, wd);
                            if let Some(x) = rest {
                                assert(out@ + (text@ + x) =~= (out@ + text@) + x);
                            }
                        }
                        extend_chars(&mut out, &text);
                        i = i + n;
                    },
                }
            },
            None => {
                proof {
                    let rest = moment_from(p@, i + 1, y, m, d, wd);
                    if let Some(x) = rest {
                        assert(out@ + (seq![p@[i as int]] + x) =~= out@.push(p@[i as int]) + x);
                    }
                }
                out.push(p[i]);
                i = i + 1;
            },
        }
    }
    proof {
        assert(out@ + Seq::<char>::empty() =~= out@);
    }
    Ok(chars_string(&out))
}

} // verus!
