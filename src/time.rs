use crate::error::CokeError;
use vstd::prelude::*;
use vstd::string::StringSliceAdditionalSpecFns;

verus! {

/// Largest magnitude of an instant, in seconds; every date of years 0..=9999 lies within it.
pub const MAX_SECS: i64 = 1099511627776;

/// A calendar date and time of day without a time zone, held as a count of
/// seconds: the proleptic Gregorian day number (January 1 of year 1 being day 1)
/// times 86400, plus the seconds since midnight. Instants order as their counts.
#[derive(Clone, Copy, Debug, PartialEq, Eq, Structural)]
pub struct Instant {
    pub secs: i64,
}

impl Instant {
    pub open spec fn wf(self) -> bool {
        -MAX_SECS <= self.secs <= MAX_SECS
    }

    /// Builds the instant of a calendar date and time of day; `None` where the
    /// date does not exist or the time of day is out of range.
    pub fn from_civil(year: i32, month: u32, day: u32, hour: u32, minute: u32, second: u32) -> (r:
        Option<Instant>)
        requires
            0 <= year <= 9999,
        ensures
            r == (if valid_fields(year as int, month as int, day as int, hour as int, minute as int, second as int) {
                Some(Instant { secs: civil_seconds(year as int, month as int, day as int, hour as int, minute as int, second as int) as i64 })
            } else {
                None::<Instant>
            }),
            r matches Some(t) ==> t.wf(),
    {
        if hour > 23 || minute > 59 || second > 59 {
            return None;
        }
        match day_number(year, month, day) {
            Some(n) => {
                proof {
                    lemma_days_bounded(year as int, month as int, day as int);
                }
                let secs: i64 = (n as i64) * 86400 + (hour as i64) * 3600 + (minute as i64) * 60
                    + second as i64;
                Some(Instant { secs })
            },
            None => None,
        }
    }
}

pub open spec fn is_leap(y: int) -> bool {
    y % 4 == 0 && (y % 100 != 0 || y % 400 == 0)
}

pub open spec fn days_in_month(y: int, m: int) -> int {
    if m == 2 {
        if is_leap(y) {
            29
        } else {
            28
        }
    } else if m == 4 || m == 6 || m == 9 || m == 11 {
        30
    } else {
        31
    }
}

/// The date exists in the proleptic Gregorian calendar.
pub open spec fn valid_date(y: int, m: int, d: int) -> bool {
    1 <= m <= 12 && 1 <= d <= days_in_month(y, m)
}

pub open spec fn days_before_month(y: int, m: int) -> int
    decreases m,
{
    if m <= 1 {
        0
    } else {
        days_before_month(y, m - 1) + days_in_month(y, m - 1)
    }
}

/// Day number in the proleptic Gregorian calendar, January 1 of year 1 being day 1.
pub open spec fn days_from_ce(y: int, m: int, d: int) -> int {
    let p = y - 1;
    365 * p + p / 4 - p / 100 + p / 400 + days_before_month(y, m) + d
}

pub open spec fn valid_fields(y: int, mo: int, d: int, h: int, mi: int, s: int) -> bool {
    valid_date(y, mo, d) && 0 <= h <= 23 && 0 <= mi <= 59 && 0 <= s <= 59
}

pub open spec fn civil_seconds(y: int, mo: int, d: int, h: int, mi: int, s: int) -> int {
    days_from_ce(y, mo, d) * 86400 + h * 3600 + mi * 60 + s
}

proof fn lemma_days_before_month_bounded(y: int, m: int)
    requires
        1 <= m <= 12,
    ensures
        0 <= days_before_month(y, m) <= 31 * (m - 1),
    decreases m,
{
    if m > 1 {
        lemma_days_before_month_bounded(y, m - 1);
    }
}

proof fn lemma_days_bounded(y: int, m: int, d: int)
    requires
        0 <= y <= 9999,
        valid_date(y, m, d),
    ensures
        -400 <= days_from_ce(y, m, d) <= 4000000,
{
    lemma_days_before_month_bounded(y, m);
    let p = y - 1;
    assert(-1 <= p / 4 <= 2500);
    assert(-1 <= p / 100 <= 100);
    assert(-1 <= p / 400 <= 25);
}

/// Relies on chrono's `NaiveDate::from_ymd_opt`, which yields a date exactly when
/// it exists in the proleptic Gregorian calendar, and on `Datelike::num_days_from_ce`,
/// which counts days with January 1 of year 1 as day 1.
#[verifier::external_body]
fn day_number(year: i32, month: u32, day: u32) -> (r: Option<i32>)
    requires
        0 <= year <= 9999,
    ensures
        r.is_some() == valid_date(year as int, month as int, day as int),
        r matches Some(n) ==> n == days_from_ce(year as int, month as int, day as int),
{
    match chrono::NaiveDate::from_ymd_opt(year, month, day) {
        Some(date) => Some(chrono::Datelike::num_days_from_ce(&date)),
        None => None,
    }
}

// ---------------------------------------------------------------------------
// The textual forms of an instant:
//   YYYY-MM-DD HH:MM:SS    YYYY-MM-DD HH:MM    YYYY-MM-DD
// ---------------------------------------------------------------------------

pub open spec fn is_digit(c: u8) -> bool {
    48 <= c <= 57
}

pub open spec fn digits_at(b: Seq<u8>, i: int, n: int) -> bool {
    forall|k: int| i <= k < i + n ==> #[trigger] is_digit(b[k])
}

pub open spec fn num2(b: Seq<u8>, i: int) -> int {
    10 * (b[i] - 48) + (b[i + 1] - 48)
}

pub open spec fn num4(b: Seq<u8>, i: int) -> int {
    100 * num2(b, i) + num2(b, i + 2)
}

/// `YYYY-MM-DD` at the start of `b`.
pub open spec fn date_shape(b: Seq<u8>) -> bool {
    &&& b.len() >= 10
    &&& digits_at(b, 0, 4)
    &&& b[4] == 45u8
    &&& digits_at(b, 5, 2)
    &&& b[7] == 45u8
    &&& digits_at(b, 8, 2)
}

/// `YYYY-MM-DD HH:MM` at the start of `b`.
pub open spec fn minute_shape(b: Seq<u8>) -> bool {
    &&& b.len() >= 16
    &&& date_shape(b)
    &&& b[10] == 32u8
    &&& digits_at(b, 11, 2)
    &&& b[13] == 58u8
    &&& digits_at(b, 14, 2)
}

/// `YYYY-MM-DD HH:MM:SS` at the start of `b`.
pub open spec fn second_shape(b: Seq<u8>) -> bool {
    &&& b.len() >= 19
    &&& minute_shape(b)
    &&& b[16] == 58u8
    &&& digits_at(b, 17, 2)
}

/// The fields that the text spells out, omitted ones being zero; the most
/// specific form is tried first, and only a form that covers the whole text counts.
pub open spec fn text_fields(b: Seq<u8>) -> Option<(int, int, int, int, int, int)> {
    if b.len() == 19 && second_shape(b) {
        Some((num4(b, 0), num2(b, 5), num2(b, 8), num2(b, 11), num2(b, 14), num2(b, 17)))
    } else if b.len() == 16 && minute_shape(b) {
        Some((num4(b, 0), num2(b, 5), num2(b, 8), num2(b, 11), num2(b, 14), 0))
    } else if b.len() == 10 && date_shape(b) {
        Some((num4(b, 0), num2(b, 5), num2(b, 8), 0, 0, 0))
    } else {
        None
    }
}

/// The instant, in seconds, that the text denotes, if it denotes one.
pub open spec fn text_seconds(b: Seq<u8>) -> Option<int> {
    match text_fields(b) {
        Some((y, mo, d, h, mi, s)) => if valid_fields(y, mo, d, h, mi, s) {
            Some(civil_seconds(y, mo, d, h, mi, s))
        } else {
            None
        },
        None => None,
    }
}

pub open spec fn parse_time_result(b: Seq<u8>) -> Result<Instant, CokeError> {
    match text_seconds(b) {
        Some(v) => Ok(Instant { secs: v as i64 }),
        None => Err(CokeError::InvalidTimeFormat),
    }
}

fn digits_ok(b: &[u8], i: usize, n: usize) -> (r: bool)
    requires
        i + n <= b@.len(),
    ensures
        r == digits_at(b@, i as int, n as int),
{
    let len: usize = b.len();
    assert(i + n <= len);
    let stop: usize = i + n;
    let mut k: usize = i;
    while k < stop
        invariant
            i <= k <= stop,
            stop == i + n,
            stop <= b@.len(),
            forall|j: int| i <= j < k ==> #[trigger] is_digit(b@[j]),
        decreases stop - k,
    {
        if b[k] < 48 || b[k] > 57 {
            assert(!is_digit(b@[k as int]));
            return false;
        }
        k = k + 1;
    }
    true
}

fn two_digits(b: &[u8], i: usize) -> (r: u32)
    requires
        i + 2 <= b@.len(),
        digits_at(b@, i as int, 2),
    ensures
        r == num2(b@, i as int),
        r <= 99,
{
    assert(is_digit(b@[i as int]) && is_digit(b@[i + 1]));
    10 * ((b[i] - 48) as u32) + ((b[i + 1] - 48) as u32)
}

/// Parses a timestamp in one of the forms `YYYY-MM-DD HH:MM:SS`, `YYYY-MM-DD HH:MM`
/// or `YYYY-MM-DD`; omitted fields are zero.
pub fn parse_time(time_str: &str) -> (r: Result<Instant, CokeError>)
    ensures
        r == parse_time_result(time_str.spec_bytes()),
        r matches Ok(t) ==> t.wf(),
{
    let b = time_str.as_bytes();
    let n = b.len();
    if n != 10 && n != 16 && n != 19 {
        return Err(CokeError::InvalidTimeFormat);
    }
    if !(digits_ok(b, 0, 4) && b[4] == 45 && digits_ok(b, 5, 2) && b[7] == 45 && digits_ok(b, 8, 2)) {
        return Err(CokeError::InvalidTimeFormat);
    }
    let mut hour: u32 = 0;
    let mut minute: u32 = 0;
    let mut second: u32 = 0;
    if n >= 16 {
        if !(b[10] == 32 && digits_ok(b, 11, 2) && b[13] == 58 && digits_ok(b, 14, 2)) {
            return Err(CokeError::InvalidTimeFormat);
        }
        hour = two_digits(b, 11);
        minute = two_digits(b, 14);
        if n == 19 {
            if !(b[16] == 58 && digits_ok(b, 17, 2)) {
                return Err(CokeError::InvalidTimeFormat);
            }
            second = two_digits(b, 17);
        }
    }
    let year = 100 * two_digits(b, 0) + two_digits(b, 2);
    assert(digits_at(b@, 0, 2) && digits_at(b@, 2, 2));
    let month = two_digits(b, 5);
    let day = two_digits(b, 8);
    match Instant::from_civil(year as i32, month, day, hour, minute, second) {
        Some(t) => Ok(t),
        None => Err(CokeError::InvalidTimeFormat),
    }
}

pub open spec fn digit_byte(n: int) -> u8 {
    (48 + n) as u8
}

/// `n` written with two decimal digits.
pub open spec fn two_digit_text(n: int) -> Seq<u8> {
    seq![digit_byte(n / 10), digit_byte(n % 10)]
}

/// `n` written with four decimal digits.
pub open spec fn four_digit_text(n: int) -> Seq<u8> {
    two_digit_text(n / 100) + two_digit_text(n % 100)
}

/// `YYYY-MM-DD`
pub open spec fn date_text(y: int, mo: int, d: int) -> Seq<u8> {
    four_digit_text(y) + seq![45u8] + two_digit_text(mo) + seq![45u8] + two_digit_text(d)
}

/// `YYYY-MM-DD HH:MM`
pub open spec fn minute_text(y: int, mo: int, d: int, h: int, mi: int) -> Seq<u8> {
    date_text(y, mo, d) + seq![32u8] + two_digit_text(h) + seq![58u8] + two_digit_text(mi)
}

/// `YYYY-MM-DD HH:MM:SS`
pub open spec fn second_text(y: int, mo: int, d: int, h: int, mi: int, s: int) -> Seq<u8> {
    minute_text(y, mo, d, h, mi) + seq![58u8] + two_digit_text(s)
}

proof fn lemma_two_digit_text(b: Seq<u8>, i: int, n: int)
    requires
        0 <= n <= 99,
        0 <= i,
        i + 2 <= b.len(),
        b[i] == two_digit_text(n)[0],
        b[i + 1] == two_digit_text(n)[1],
    ensures
        digits_at(b, i, 2),
        num2(b, i) == n,
{
    assert(is_digit(b[i]) && is_digit(b[i + 1]));
}

proof fn lemma_digits_two_digit_text(b: Seq<u8>, i: int)
    requires
        0 <= i,
        i + 2 <= b.len(),
        digits_at(b, i, 2),
    ensures
        b[i] == two_digit_text(num2(b, i))[0],
        b[i + 1] == two_digit_text(num2(b, i))[1],
        0 <= num2(b, i) <= 99,
{
    assert(is_digit(b[i]) && is_digit(b[i + 1]));
}

/// Each of the three textual forms of a valid instant parses back to that
/// instant, the fields that the form omits being zero.
pub proof fn lemma_parse_time_round_trip(y: int, mo: int, d: int, h: int, mi: int, s: int)
    requires
        0 <= y <= 9999,
        valid_fields(y, mo, d, h, mi, s),
    ensures
        parse_time_result(second_text(y, mo, d, h, mi, s)) == Ok::<Instant, CokeError>(
            Instant { secs: civil_seconds(y, mo, d, h, mi, s) as i64 },
        ),
        parse_time_result(minute_text(y, mo, d, h, mi)) == Ok::<Instant, CokeError>(
            Instant { secs: civil_seconds(y, mo, d, h, mi, 0) as i64 },
        ),
        parse_time_result(date_text(y, mo, d)) == Ok::<Instant, CokeError>(
            Instant { secs: civil_seconds(y, mo, d, 0, 0, 0) as i64 },
        ),
{
    let b = second_text(y, mo, d, h, mi, s);
    let m = minute_text(y, mo, d, h, mi);
    let t = date_text(y, mo, d);
    assert(b.len() == 19 && m.len() == 16 && t.len() == 10);
    assert forall|c: Seq<u8>| c == b || c == m || c == t implies {
        &&& date_shape(c)
        &&& num4(c, 0) == y
        &&& num2(c, 5) == mo
        &&& num2(c, 8) == d
    } by {
        lemma_two_digit_text(c, 0, y / 100);
        lemma_two_digit_text(c, 2, y % 100);
        lemma_two_digit_text(c, 5, mo);
        lemma_two_digit_text(c, 8, d);
        assert(digits_at(c, 0, 4)) by {
            assert(forall|k: int| 0 <= k < 2 ==> is_digit(#[trigger] c[k]) ==> is_digit(c[k]));
        }
    }
    assert forall|c: Seq<u8>| c == b || c == m implies {
        &&& minute_shape(c)
        &&& num2(c, 11) == h
        &&& num2(c, 14) == mi
    } by {
        lemma_two_digit_text(c, 11, h);
        lemma_two_digit_text(c, 14, mi);
    }
    lemma_two_digit_text(b, 17, s);
    assert(second_shape(b));
    assert(!second_shape(m) && !minute_shape(t));
}

/// Only the three textual forms of a valid instant parse: whatever parses is
/// the text of the instant's fields in one of the forms.
pub proof fn lemma_parse_time_only_forms(b: Seq<u8>)
    requires
        parse_time_result(b) is Ok,
    ensures
        ({
            let (y, mo, d, h, mi, s) = text_fields(b).unwrap();
            &&& 0 <= y <= 9999
            &&& valid_fields(y, mo, d, h, mi, s)
            &&& b == second_text(y, mo, d, h, mi, s) || (b == minute_text(y, mo, d, h, mi) && s
                == 0) || (b == date_text(y, mo, d) && h == 0 && mi == 0 && s == 0)
        }),
{
    let (y, mo, d, h, mi, s) = text_fields(b).unwrap();
    lemma_digits_two_digit_text(b, 0);
    lemma_digits_two_digit_text(b, 2);
    lemma_digits_two_digit_text(b, 5);
    lemma_digits_two_digit_text(b, 8);
    assert(y / 100 == num2(b, 0) && y % 100 == num2(b, 2));
    if b.len() >= 16 {
        lemma_digits_two_digit_text(b, 11);
        lemma_digits_two_digit_text(b, 14);
    }
    if b.len() == 19 {
        lemma_digits_two_digit_text(b, 17);
        assert(b =~= second_text(y, mo, d, h, mi, s));
    } else if b.len() == 16 {
        assert(b =~= minute_text(y, mo, d, h, mi));
    } else {
        assert(b =~= date_text(y, mo, d));
    }
}

} // verus!
