//! Local calendar dates that name the journal files, written ISO 8601
//! (`YYYY-MM-DD`).
use vstd::prelude::*;

use crate::error::CoreError;

use chrono::Datelike;

use crate::text::chars_of;

verus! {

/// Proleptic Gregorian leap years.
pub open spec fn is_leap(y: int) -> bool {
    y % 4 == 0 && (y % 100 != 0 || y % 400 == 0)
}

pub open spec fn days_in_month(y: int, m: int) -> int {
    if m == 2 {
        if is_leap(y) {
            29
        } else {
            28
        }
    } else if m == 4 || m == 6 || m == 9 || m == 11 {
        30
    } else {
        31
    }
}

/// The first year that `chrono::NaiveDate` represents.
pub open spec fn min_year() -> int {
    -262143
}

/// The last year that `chrono::NaiveDate` represents.
pub open spec fn max_year() -> int {
    262142
}

/// A (year, month, day) that names a real calendar day in range.
pub open spec fn valid_date(d: (int, int, int)) -> bool {
    &&& min_year() <= d.0 <= max_year()
    &&& 1 <= d.1 <= 12
    &&& 1 <= d.2 <= days_in_month(d.0, d.1)
}

pub open spec fn is_last_date(d: (int, int, int)) -> bool {
    d == (max_year(), 12int, 31int)
}

pub open spec fn is_first_date(d: (int, int, int)) -> bool {
    d == (min_year(), 1int, 1int)
}

/// The calendar day after `d`.
pub open spec fn next_day(d: (int, int, int)) -> (int, int, int) {
    if d.2 < days_in_month(d.0, d.1) {
        (d.0, d.1, d.2 + 1)
    } else if d.1 < 12 {
        (d.0, d.1 + 1, 1)
    } else {
        (d.0 + 1, 1, 1)
    }
}

/// The calendar day before `d`.
pub open spec fn prev_day(d: (int, int, int)) -> (int, int, int) {
    if d.2 > 1 {
        (d.0, d.1, d.2 - 1)
    } else if d.1 > 1 {
        (d.0, d.1 - 1, days_in_month(d.0, d.1 - 1))
    } else {
        (d.0 - 1, 12, 31)
    }
}

/// Strict chronological order.
pub open spec fn date_lt(a: (int, int, int), b: (int, int, int)) -> bool {
    a.0 < b.0 || (a.0 == b.0 && (a.1 < b.1 || (a.1 == b.1 && a.2 < b.2)))
}

/// `chrono::NaiveDate::from_ymd_opt(y, m, d).is_some()`: whether the
/// calendar date exists and lies in the range that chrono represents.
#[verifier::external_body]
fn chrono_date_exists(y: i32, m: u32, d: u32) -> (b: bool)
    ensures
        b == valid_date((y as int, m as int, d as int)),
{
    chrono::NaiveDate::from_ymd_opt(y, m, d).is_some()
}

/// `chrono::NaiveDate::succ_opt` on the date (y, m, d), as plain values:
/// the next calendar day, `None` on the last representable date.
#[verifier::external_body]
fn chrono_succ(y: i32, m: u32, d: u32) -> (r: Option<(i32, u32, u32)>)
    requires
        valid_date((y as int, m as int, d as int)),
    ensures
        match r {
            Some(n) => !is_last_date((y as int, m as int, d as int)) && (n.0 as int, n.1 as int, n.2 as int)
                == next_day((y as int, m as int, d as int)),
            None => is_last_date((y as int, m as int, d as int)),
        },
{
    match chrono::NaiveDate::from_ymd_opt(y, m, d) {
        Some(date) => match date.succ_opt() {
            Some(n) => Some((n.year(), n.month(), n.day())),
            None => None,
        },
        None => None,
    }
}

/// `chrono::NaiveDate::pred_opt` on the date (y, m, d), as plain values:
/// the previous calendar day, `None` on the first representable date.
#[verifier::external_body]
fn chrono_pred(y: i32, m: u32, d: u32) -> (r: Option<(i32, u32, u32)>)
    requires
        valid_date((y as int, m as int, d as int)),
    ensures
        match r {
            Some(n) => !is_first_date((y as int, m as int, d as int)) && (n.0 as int, n.1 as int, n.2 as int)
                == prev_day((y as int, m as int, d as int)),
            None => is_first_date((y as int, m as int, d as int)),
        },
{
    match chrono::NaiveDate::from_ymd_opt(y, m, d) {
        Some(date) => match date.pred_opt() {
            Some(n) => Some((n.year(), n.month(), n.day())),
            None => None,
        },
        None => None,
    }
}

/// `chrono::Local::now().date_naive()` as (year, month, day): today in the
/// machine's time zone. Only its validity is claimed; which day it is
/// depends on the clock.
#[verifier::external_body]
fn chrono_local_today() -> (r: (i32, u32, u32))
    ensures
        valid_date((r.0 as int, r.1 as int, r.2 as int)),
{
    let date = chrono::Local::now().date_naive();
    (date.year(), date.month(), date.day())
}

/// A local calendar date used to name journal files.
#[derive(Debug, Clone, Copy, PartialEq, Eq, Structural)]
pub struct JournalDate {
    year: i32,
    month: u32,
    day: u32,
}

impl View for JournalDate {
    type V = (int, int, int);

    closed spec fn view(&self) -> (int, int, int) {
        (self.year as int, self.month as int, self.day as int)
    }
}

impl JournalDate {
    #[verifier::type_invariant]
    spec fn well_formed(self) -> bool {
        valid_date((self.year as int, self.month as int, self.day as int))
    }

    /// The date (year, month, day), when it exists in the calendar and in
    /// chrono's range.
    pub fn from_ymd_opt(year: i32, month: u32, day: u32) -> (r: Option<JournalDate>)
        ensures
            match r {
                Some(d) => valid_date((year as int, month as int, day as int)) && d@ == (
                    year as int,
                    month as int,
                    day as int,
                ),
                None => !valid_date((year as int, month as int, day as int)),
            },
    {
        if chrono_date_exists(year, month, day) {
            Some(JournalDate { year, month, day })
        } else {
            None
        }
    }

    /// Today, in the local time zone.
    pub fn today() -> (d: JournalDate)
        ensures
            valid_date(d@),
    {
        let (year, month, day) = chrono_local_today();
        JournalDate { year, month, day }
    }

    /// The next day; the last representable date stays itself.
    pub fn succ(&self) -> (r: JournalDate)
        ensures
            r@ == if is_last_date(self@) {
                self@
            } else {
                next_day(self@)
            },
    {
        proof {
            use_type_invariant(self);
        }
        match chrono_succ(self.year, self.month, self.day) {
            Some((year, month, day)) => {
                proof {
                    lemma_next_day_valid(self@);
                }
                JournalDate { year, month, day }
            },
            None => *self,
        }
    }

    /// The previous day; the first representable date stays itself.
    pub fn pred(&self) -> (r: JournalDate)
        ensures
            r@ == if is_first_date(self@) {
                self@
            } else {
                prev_day(self@)
            },
    {
        proof {
            use_type_invariant(self);
        }
        match chrono_pred(self.year, self.month, self.day) {
            Some((year, month, day)) => {
                proof {
                    lemma_prev_day_valid(self@);
                }
                JournalDate { year, month, day }
            },
            None => *self,
        }
    }

    /// Strictly earlier than `other`.
    pub fn is_before(&self, other: &JournalDate) -> (b: bool)
        ensures
            b == date_lt(self@, other@),
    {
        self.year < other.year || (self.year == other.year && (self.month < other.month || (
        self.month == other.month && self.day < other.day)))
    }
}

pub proof fn lemma_next_day_valid(d: (int, int, int))
    requires
        valid_date(d),
        !is_last_date(d),
    ensures
        valid_date(next_day(d)),
{
}

pub proof fn lemma_prev_day_valid(d: (int, int, int))
    requires
        valid_date(d),
        !is_first_date(d),
    ensures
        valid_date(prev_day(d)),
{
}


/// Law: the day before the next day is the day itself (for every date but
/// the last representable one), and the day after the previous day too
/// (for every date but the first).
pub proof fn law_succ_pred_inverse(d: (int, int, int))
    requires
        valid_date(d),
    ensures
        !is_last_date(d) ==> prev_day(next_day(d)) == d,
        !is_first_date(d) ==> next_day(prev_day(d)) == d,
        !is_last_date(d) ==> !is_first_date(next_day(d)),
        !is_first_date(d) ==> !is_last_date(prev_day(d)),
{
}

// ---------------------------------------------------------------- ISO text

pub open spec fn digit_char(d: int) -> char {
    ((48 + d) as u8) as char
}

/// Decimal digits of `n`, without leading zeros (`0` is `"0"`).
pub open spec fn digits(n: nat) -> Seq<char>
    decreases n,
{
    if n < 10 {
        seq![digit_char(n as int)]
    } else {
        digits(n / 10).push(digit_char((n % 10) as int))
    }
}

/// `s` left-padded with zeros to `width` characters.
pub open spec fn zero_pad(s: Seq<char>, width: nat) -> Seq<char> {
    if s.len() >= width {
        s
    } else {
        Seq::new((width - s.len()) as nat, |i: int| '0') + s
    }
}

/// What `format!("{:0w$}", n)` writes for an integer: sign first, then
/// the digits zero-padded so that the whole is `w` wide.
pub open spec fn fmt_int(n: int, width: nat) -> Seq<char> {
    if n < 0 {
        seq!['-'] + zero_pad(digits((-n) as nat), (if width > 0 { width - 1 } else { 0 }) as nat)
    } else {
        zero_pad(digits(n as nat), width)
    }
}

/// `YYYY-MM-DD`, as `format!("{:04}-{:02}-{:02}", y, m, d)` writes it.
pub open spec fn file_stem(d: (int, int, int)) -> Seq<char> {
    fmt_int(d.0, 4) + seq!['-'] + fmt_int(d.1, 2) + seq!['-'] + fmt_int(d.2, 2)
}

pub fn push_digits(out: &mut Vec<char>, n: u64)
    ensures
        final(out)@ == old(out)@ + digits(n as nat),
    decreases n,
{
    if n >= 10 {
        push_digits(out, n / 10);
    }
    let d = (n % 10) as u8;
    out.push((48u8 + d) as char);
    proof {
        if n >= 10 {
            assert(old(out)@ + digits((n / 10) as nat) + seq![digit_char((n % 10) as int)] =~= old(out)@
                + digits(n as nat));
        } else {
            assert(old(out)@ + seq![digit_char(n as int)] =~= old(out)@ + digits(n as nat));
        }
    }
}

pub proof fn lemma_digits_len(n: nat)
    ensures
        digits(n).len() >= 1,
        n < 10 ==> digits(n).len() == 1,
        10 <= n < 100 ==> digits(n).len() == 2,
        100 <= n < 1000 ==> digits(n).len() == 3,
        1000 <= n < 10000 ==> digits(n).len() == 4,
    decreases n,
{
    if n >= 10 {
        lemma_digits_len(n / 10);
    }
}

/// Appends `fmt_int(n, width)`.
fn push_int(out: &mut Vec<char>, n: i64, width: usize)
    requires
        n > i64::MIN,
        width <= 8,
    ensures
        final(out)@ == old(out)@ + fmt_int(n as int, width as nat),
{
    let mut ds: Vec<char> = Vec::new();
    let w = if n < 0 {
        out.push('-');
        push_digits(&mut ds, (-n) as u64);
        if width > 0 { width - 1 } else { 0 }
    } else {
        push_digits(&mut ds, n as u64);
        width
    };
    let ghost before = out@;
    let mut k = ds.len();
    while k < w
        invariant
            ds.len() <= k <= w || (ds.len() >= w && k == ds.len()),
            out@ == before + Seq::new((k - ds.len()) as nat, |i: int| '0'),
        decreases w - k,
    {
        out.push('0');
        proof {
            assert(before + Seq::new((k - ds.len()) as nat, |i: int| '0') + seq!['0'] =~= before
                + Seq::new((k + 1 - ds.len()) as nat, |i: int| '0'));
        }
        k += 1;
    }
    let ghost mid = out@;
    let mut j: usize = 0;
    while j < ds.len()
        invariant
            j <= ds.len(),
            out@ == mid + ds@.take(j as int),
        decreases ds.len() - j,
    {
        out.push(ds[j]);
        proof {
            assert(ds@.take(j + 1) == ds@.take(j as int).push(ds@[j as int]));
        }
        j += 1;
    }
    proof {
        assert(ds@.take(ds.len() as int) == ds@);
        let s = ds@;
        if s.len() >= w {
            assert(Seq::new(0nat, |i: int| '0') + s =~= s);
        }
        if n < 0 {
            assert(old(out)@ + fmt_int(n as int, width as nat) =~= old(out)@ + seq!['-'] + zero_pad(s, w as nat));
        }
        assert(mid == before + Seq::new((k - s.len()) as nat, |i: int| '0'));
    }
}

pub open spec fn is_digit(c: char) -> bool {
    '0' <= c && c <= '9'
}

pub open spec fn digit_val(c: char) -> int {
    c as int - 48
}

/// The date written `YYYY-MM-DD` in `s` (four-digit year, two-digit month
/// and day), when it is a real calendar day.
pub open spec fn parse_stem(s: Seq<char>) -> Option<(int, int, int)> {
    if s.len() == 10 && s[4] == '-' && s[7] == '-' && is_digit(s[0]) && is_digit(s[1]) && is_digit(
        s[2],
    ) && is_digit(s[3]) && is_digit(s[5]) && is_digit(s[6]) && is_digit(s[8]) && is_digit(s[9]) {
        let d = (
            digit_val(s[0]) * 1000 + digit_val(s[1]) * 100 + digit_val(s[2]) * 10 + digit_val(s[3]),
            digit_val(s[5]) * 10 + digit_val(s[6]),
            digit_val(s[8]) * 10 + digit_val(s[9]),
        );
        if valid_date(d) {
            Some(d)
        } else {
            None
        }
    } else {
        None
    }
}

fn digit_at(v: &Vec<char>, i: usize) -> (r: Option<u32>)
    requires
        i < v.len(),
    ensures
        match r {
            Some(x) => is_digit(v@[i as int]) && x == digit_val(v@[i as int]),
            None => !is_digit(v@[i as int]),
        },
{
    let c = v[i];
    if '0' <= c && c <= '9' {
        Some((c as u32) - 48)
    } else {
        None
    }
}

impl JournalDate {
    /// Reads a date written `YYYY-MM-DD`, as [`JournalDate::to_file_stem`]
    /// writes the dates of years 0 to 9999. `None` for any other text or
    /// for a day that the calendar does not have.
    pub fn parse(s: &str) -> (r: Option<JournalDate>)
        ensures
            match parse_stem(s@) {
                Some(d) => r matches Some(x) && x@ == d,
                None => r is None,
            },
    {
        let v = chars_of(s);
        if v.len() != 10 || v[4] != '-' || v[7] != '-' {
            return None;
        }
        let d0 = match digit_at(&v, 0) { Some(x) => x, None => { return None; } };
        let d1 = match digit_at(&v, 1) { Some(x) => x, None => { return None; } };
        let d2 = match digit_at(&v, 2) { Some(x) => x, None => { return None; } };
        let d3 = match digit_at(&v, 3) { Some(x) => x, None => { return None; } };
        let m0 = match digit_at(&v, 5) { Some(x) => x, None => { return None; } };
        let m1 = match digit_at(&v, 6) { Some(x) => x, None => { return None; } };
        let e0 = match digit_at(&v, 8) { Some(x) => x, None => { return None; } };
        let e1 = match digit_at(&v, 9) { Some(x) => x, None => { return None; } };
        let year = (d0 * 1000 + d1 * 100 + d2 * 10 + d3) as i32;
        let month = m0 * 10 + m1;
        let day = e0 * 10 + e1;
        JournalDate::from_ymd_opt(year, month, day)
    }

    /// An optional date given as text by a client (`before` of a journal
    /// listing): absent stays absent, a text that is no `YYYY-MM-DD` day is
    /// refused with the text itself.
    pub fn parse_param(text: Option<String>) -> (r: Result<Option<JournalDate>, CoreError>)
        ensures
            match text {
                None => r matches Ok(None),
                Some(t) => match parse_stem(t@) {
                    Some(d) => r matches Ok(Some(x)) && x@ == d,
                    None => r matches Err(CoreError::InvalidDate(x)) && x@ == t@,
                },
            },
    {
        match text {
            None => Ok(None),
            Some(t) => match JournalDate::parse(t.as_str()) {
                Some(d) => Ok(Some(d)),
                None => Err(CoreError::InvalidDate(t)),
            },
        }
    }

    /// The file stem of the date: `YYYY-MM-DD`.
    pub fn to_file_stem(self) -> (s: String)
        ensures
            s@ == file_stem(self@),
    {
        let mut v: Vec<char> = Vec::new();
        push_int(&mut v, self.year as i64, 4);
        v.push('-');
        push_int(&mut v, self.month as i64, 2);
        v.push('-');
        push_int(&mut v, self.day as i64, 2);
        proof {
            assert(v@ =~= file_stem(self@));
        }
        crate::text::string_from_chars(&v)
    }
}


proof fn lemma_digit_char(k: int)
    requires
        0 <= k <= 9,
    ensures
        is_digit(digit_char(k)),
        digit_val(digit_char(k)) == k,
{
    assert(((48 + k) as u8) as int == 48 + k);
    assert((((48 + k) as u8) as char) as int == 48 + k);
}


/// The four characters that `{:04}` writes for a year from 0 to 9999.
proof fn lemma_fmt4(n: int)
    requires
        0 <= n <= 9999,
    ensures
        fmt_int(n, 4) == seq![
            digit_char(n / 1000),
            digit_char((n / 100) % 10),
            digit_char((n / 10) % 10),
            digit_char(n % 10),
        ],
{
    let z = digit_char(0);
    assert(z == '0') by {
        lemma_digit_char(0);
    }
    if n < 10 {
        assert(digits(n as nat) == seq![digit_char(n)]);
        assert(fmt_int(n, 4) =~= seq![z, z, z, digit_char(n)]);
    } else if n < 100 {
        assert(digits((n / 10) as nat) == seq![digit_char(n / 10)]);
        assert(digits(n as nat) =~= seq![digit_char(n / 10), digit_char(n % 10)]);
        assert(fmt_int(n, 4) =~= seq![z, z, digit_char(n / 10), digit_char(n % 10)]);
    } else if n < 1000 {
        assert(digits((n / 100) as nat) == seq![digit_char(n / 100)]);
        assert((n / 10) / 10 == n / 100);
        assert(digits((n / 10) as nat) =~= seq![digit_char(n / 100), digit_char((n / 10) % 10)]);
        assert(digits(n as nat) =~= seq![digit_char(n / 100), digit_char((n / 10) % 10), digit_char(n % 10)]);
        assert(fmt_int(n, 4) =~= seq![z, digit_char(n / 100), digit_char((n / 10) % 10), digit_char(n % 10)]);
    } else {
        assert(digits((n / 1000) as nat) == seq![digit_char(n / 1000)]);
        assert((n / 100) / 10 == n / 1000);
        assert((n / 10) / 10 == n / 100);
        assert(digits((n / 100) as nat) =~= seq![digit_char(n / 1000), digit_char((n / 100) % 10)]);
        assert(digits((n / 10) as nat) =~= seq![
            digit_char(n / 1000),
            digit_char((n / 100) % 10),
            digit_char((n / 10) % 10),
        ]);
        assert(digits(n as nat) =~= seq![
            digit_char(n / 1000),
            digit_char((n / 100) % 10),
            digit_char((n / 10) % 10),
            digit_char(n % 10),
        ]);
    }
}

/// The two characters that `{:02}` writes for a number from 0 to 99.
proof fn lemma_fmt2(n: int)
    requires
        0 <= n <= 99,
    ensures
        fmt_int(n, 2) == seq![digit_char(n / 10), digit_char(n % 10)],
{
    let z = digit_char(0);
    assert(z == '0') by {
        lemma_digit_char(0);
    }
    if n < 10 {
        assert(digits(n as nat) == seq![digit_char(n)]);
        assert(fmt_int(n, 2) =~= seq![z, digit_char(n)]);
    } else {
        assert(digits((n / 10) as nat) == seq![digit_char(n / 10)]);
        assert(digits(n as nat) =~= seq![digit_char(n / 10), digit_char(n % 10)]);
    }
}

#[verifier::spinoff_prover]
proof fn lemma_year_digits(n: int)
    requires
        0 <= n <= 9999,
    ensures
        fmt_int(n, 4).len() == 4,
        is_digit(fmt_int(n, 4)[0]) && is_digit(fmt_int(n, 4)[1]) && is_digit(fmt_int(n, 4)[2]) && is_digit(
            fmt_int(n, 4)[3],
        ),
        digit_val(fmt_int(n, 4)[0]) * 1000 + digit_val(fmt_int(n, 4)[1]) * 100 + digit_val(fmt_int(n, 4)[2]) * 10
            + digit_val(fmt_int(n, 4)[3]) == n,
{
    lemma_fmt4(n);
    let a = n / 1000;
    let b = (n / 100) % 10;
    let c = (n / 10) % 10;
    let d = n % 10;
    assert(0 <= a <= 9 && 0 <= b <= 9 && 0 <= c <= 9 && 0 <= d <= 9);
    assert(a * 1000 + b * 100 + c * 10 + d == n) by {
        assert(n == 10 * (n / 10) + d);
        assert((n / 10) / 10 == n / 100);
        assert(n / 10 == 10 * (n / 100) + c);
        assert((n / 100) / 10 == a);
        assert(n / 100 == 10 * a + b);
    }
    lemma_digit_char(a);
    lemma_digit_char(b);
    lemma_digit_char(c);
    lemma_digit_char(d);
}

proof fn lemma_two_digits(n: int)
    requires
        0 <= n <= 99,
    ensures
        fmt_int(n, 2).len() == 2,
        is_digit(fmt_int(n, 2)[0]) && is_digit(fmt_int(n, 2)[1]),
        digit_val(fmt_int(n, 2)[0]) * 10 + digit_val(fmt_int(n, 2)[1]) == n,
{
    lemma_fmt2(n);
    lemma_digit_char(n / 10);
    lemma_digit_char(n % 10);
}

/// Law: reading back the file stem of a date gives the date, for the years
/// that `YYYY` can write (0 to 9999): the journal file of a day names that
/// day.
pub proof fn law_parse_file_stem(d: (int, int, int))
    requires
        valid_date(d),
        0 <= d.0 <= 9999,
    ensures
        parse_stem(file_stem(d)) == Some(d),
{
    lemma_year_digits(d.0);
    lemma_two_digits(d.1);
    lemma_two_digits(d.2);
    let s = file_stem(d);
    let y = fmt_int(d.0, 4);
    let m = fmt_int(d.1, 2);
    let e = fmt_int(d.2, 2);
    assert(s =~= y + seq!['-'] + m + seq!['-'] + e);
    assert(s[0] == y[0] && s[1] == y[1] && s[2] == y[2] && s[3] == y[3]);
    assert(s[4] == '-' && s[7] == '-');
    assert(s[5] == m[0] && s[6] == m[1] && s[8] == e[0] && s[9] == e[1]);
}

} // verus!
