mod date;
mod time;

use vstd::prelude::*;

pub use crate::date_time::date::Date;
pub use crate::date_time::time::Time;
use crate::text::{
    all_digits, chars_of, decimal, has_char, has_space, is_digit, lemma_digits_plain,
    lemma_no_char_concat, lemma_parse_padded,
    lemma_split_three, lemma_two_words, padded_decimal, parse_unsigned, parse_unsigned_chars,
    pieces, split_chars, split_on, split_words, string_of, words, zero_pad,
};

verus! {

pub const SECS_PER_MIN: u64 = 60;

pub const SECS_PER_HOUR: u64 = 3600;

pub const SECS_PER_DAY: u64 = 86400;

/// Days after the epoch that a timestamp can stand for: every year reached stays below 65536.
pub const MAX_DAYS: u64 = 23_000_000;

/// Seconds after the epoch that a timestamp can stand for.
pub const MAX_UNIX_SECONDS: u64 = 1_987_200_000_000;

/// Gregorian leap year: divisible by 4 and not by 100, or divisible by 400.
pub open spec fn is_leap(y: int) -> bool {
    (y % 4 == 0 && y % 100 != 0) || y % 400 == 0
}

pub open spec fn year_length(y: int) -> int {
    if is_leap(y) {
        366
    } else {
        365
    }
}

/// Days from 1970-01-01 to the first day of year `y`.
pub open spec fn days_before_year(y: int) -> int
    decreases y - 1970,
{
    if y <= 1970 {
        0
    } else {
        days_before_year(y - 1) + year_length(y - 1)
    }
}

/// Days in month `m` (1 to 12) of year `y`.
pub open spec fn month_length(y: int, m: int) -> int {
    if m == 2 {
        if is_leap(y) {
            29
        } else {
            28
        }
    } else if m == 4 || m == 6 || m == 9 || m == 11 {
        30
    } else {
        31
    }
}

/// Days from the first of January of year `y` to the first day of month `m`.
pub open spec fn days_before_month(y: int, m: int) -> int {
    let l: int = if is_leap(y) {
        1
    } else {
        0
    };
    if m <= 1 {
        0
    } else if m == 2 {
        31
    } else if m == 3 {
        59 + l
    } else if m == 4 {
        90 + l
    } else if m == 5 {
        120 + l
    } else if m == 6 {
        151 + l
    } else if m == 7 {
        181 + l
    } else if m == 8 {
        212 + l
    } else if m == 9 {
        243 + l
    } else if m == 10 {
        273 + l
    } else if m == 11 {
        304 + l
    } else if m == 12 {
        334 + l
    } else {
        365 + l
    }
}

/// `(y, m, d)` is a real date of 1970 or later, and it lies `days` days after 1970-01-01.
pub open spec fn is_date_of_day(days: int, y: int, m: int, d: int) -> bool {
    &&& 1970 <= y
    &&& 1 <= m <= 12
    &&& 1 <= d <= month_length(y, m)
    &&& days == days_before_year(y) + days_before_month(y, m) + d - 1
}

proof fn lemma_days_before_year_grows(y: int)
    requires
        1970 <= y,
    ensures
        days_before_year(y) >= 365 * (y - 1970),
    decreases y - 1970,
{
    if y > 1970 {
        lemma_days_before_year_grows(y - 1);
    }
}

proof fn lemma_days_before_year_monotone(a: int, b: int)
    requires
        1970 <= a <= b,
    ensures
        days_before_year(a) <= days_before_year(b),
    decreases b - a,
{
    if a < b {
        lemma_days_before_year_monotone(a, b - 1);
    }
}

proof fn lemma_days_before_year_bounded(y: int)
    requires
        1970 <= y,
    ensures
        days_before_year(y) <= 366 * (y - 1970),
    decreases y - 1970,
{
    if y > 1970 {
        lemma_days_before_year_bounded(y - 1);
    }
}

/// An instant has one date and time: two valid timestamps that count the same seconds from the
/// epoch are equal. So the timestamp built for an instant is the only one, and counting its
/// seconds back gives that instant.
pub proof fn lemma_instant_unique(a: DateTime, b: DateTime)
    requires
        a.is_valid(),
        b.is_valid(),
        a.seconds_since_epoch() == b.seconds_since_epoch(),
    ensures
        a == b,
{
    let ya = a.date.year as int;
    let yb = b.date.year as int;
    let da = days_before_year(ya) + days_before_month(ya, a.date.month as int) + a.date.day - 1;
    let db = days_before_year(yb) + days_before_month(yb, b.date.month as int) + b.date.day - 1;
    let ta = a.time.hour * 3600 + a.time.minute * 60 + a.time.second;
    let tb = b.time.hour * 3600 + b.time.minute * 60 + b.time.second;
    assert(da * 86400 + ta == db * 86400 + tb);
    assert(da == db && ta == tb) by (nonlinear_arith)
        requires
            da * 86400 + ta == db * 86400 + tb,
            0 <= ta < 86400,
            0 <= tb < 86400,
    {}
    assert(a.time.hour == b.time.hour && a.time.minute == b.time.minute) by (nonlinear_arith)
        requires
            ta == tb,
            ta == a.time.hour * 3600 + a.time.minute * 60 + a.time.second,
            tb == b.time.hour * 3600 + b.time.minute * 60 + b.time.second,
            a.time.minute < 60, a.time.second < 60,
            b.time.minute < 60, b.time.second < 60,
    {}
    if ya < yb {
        lemma_days_before_year_monotone(ya + 1, yb);
    } else if yb < ya {
        lemma_days_before_year_monotone(yb + 1, ya);
    }
    assert(ya == yb);
}

/// A civil date and time of day.
#[derive(Clone, Copy, Debug, PartialEq, Eq, Structural)]
pub struct DateTime {
    pub date: Date,
    pub time: Time,
}

/// Kept for callers that parse through `FromStr`; parsing never fails.
pub struct DateTimeParseError;

impl DateTime {
    /// A real calendar date of 1970 or later and a real time of day.
    pub open spec fn is_valid(self) -> bool {
        &&& self.date.year >= 1970
        &&& 1 <= self.date.month <= 12
        &&& 1 <= self.date.day <= month_length(self.date.year as int, self.date.month as int)
        &&& self.time.hour < 24
        &&& self.time.minute < 60
        &&& self.time.second < 60
    }

    /// Seconds from the epoch to this instant, counted on the proleptic Gregorian calendar.
    pub open spec fn seconds_since_epoch(self) -> int {
        (days_before_year(self.date.year as int) + days_before_month(
            self.date.year as int,
            self.date.month as int,
        ) + self.date.day - 1) * 86400 + self.time.hour * 3600 + self.time.minute * 60
            + self.time.second
    }

    /// The instant `secs` seconds after the epoch.
    pub open spec fn is_instant(self, secs: int) -> bool {
        &&& self.is_valid()
        &&& self.seconds_since_epoch() == secs
    }

    pub fn new(date: Date, time: Time) -> (r: Self)
        ensures
            r.date == date,
            r.time == time,
    {
        DateTime { date, time }
    }

    pub fn is_leap_year(year: u32) -> (r: bool)
        ensures
            r == is_leap(year as int),
    {
        (year % 4 == 0 && year % 100 != 0) || year % 400 == 0
    }

    /// The date `days` days after 1970-01-01.
    pub fn days_to_ymd(days: u64) -> (r: (u16, u8, u8))
        requires
            days < MAX_DAYS,
        ensures
            is_date_of_day(days as int, r.0 as int, r.1 as int, r.2 as int),
    {
        let ghost total = days as int;
        let mut rest = days;
        let mut year: u32 = 1970;
        loop
            invariant
                1970 <= year,
                total == days,
                total < MAX_DAYS,
                total == days_before_year(year as int) + rest,
            ensures
                1970 <= year,
                total == days_before_year(year as int) + rest,
                rest < year_length(year as int),
            decreases rest,
        {
            proof {
                lemma_days_before_year_grows(year as int);
            }
            let leap = DateTime::is_leap_year(year);
            let year_days: u64 = if leap {
                366
            } else {
                365
            };
            if rest < year_days {
                break ;
            }
            rest -= year_days;
            year += 1;
        }
        proof {
            lemma_days_before_year_grows(year as int);
        }
        let leap = DateTime::is_leap_year(year);
        let mut month: u8 = 1;
        let ghost start = rest as int;
        while month <= 12
            invariant
                1 <= month <= 13,
                total == days,
                1970 <= year < 65536,
                leap == is_leap(year as int),
                start < year_length(year as int),
                total == days_before_year(year as int) + start,
                start == days_before_month(year as int, month as int) + rest,
            decreases 13 - month,
        {
            let d: u64 = if month == 2 {
                if leap {
                    29
                } else {
                    28
                }
            } else if month == 4 || month == 6 || month == 9 || month == 11 {
                30
            } else {
                31
            };
            assert(d == month_length(year as int, month as int));
            if rest < d {
                return (year as u16, month, (rest + 1) as u8);
            }
            rest -= d;
            month += 1;
        }
        (year as u16, 12, 31)
    }

    /// The instant `secs` seconds after the epoch.
    pub fn from_unix_seconds(secs: u64) -> (r: DateTime)
        requires
            secs < MAX_UNIX_SECONDS,
        ensures
            r.is_instant(secs as int),
    {
        let days_since_epoch = secs / SECS_PER_DAY;
        let secs_today = secs % SECS_PER_DAY;
        let hour = (secs_today / SECS_PER_HOUR) as u8;
        let minute = ((secs_today % SECS_PER_HOUR) / SECS_PER_MIN) as u8;
        let second = (secs_today % SECS_PER_MIN) as u8;
        let (year, month, day) = DateTime::days_to_ymd(days_since_epoch);
        assert(secs_today % 60 == (secs_today % 3600) % 60) by (nonlinear_arith)
            requires
                secs_today < 86400,
        {}
        DateTime { date: Date::new(year, month, day), time: Time::new(hour, minute, second) }
    }

    /// The text `YYYY/MM/DD HH:MM:SS` of this timestamp.
    pub fn to_string(&self) -> (r: String)
        ensures
            r@ == format_text(*self),
    {
        let mut v = padded_decimal(self.date.year as u64, 4);
        v.push('/');
        v.append(&mut padded_decimal(self.date.month as u64, 2));
        v.push('/');
        v.append(&mut padded_decimal(self.date.day as u64, 2));
        v.push(' ');
        v.append(&mut padded_decimal(self.time.hour as u64, 2));
        v.push(':');
        v.append(&mut padded_decimal(self.time.minute as u64, 2));
        v.push(':');
        v.append(&mut padded_decimal(self.time.second as u64, 2));
        assert(v@ =~= format_text(*self));
        string_of(&v)
    }

    /// The timestamp that the text `s` gives; parsing never fails, and malformed fields read
    /// as 0.
    pub fn from_text(s: &str) -> (r: DateTime)
        ensures
            r == parse_text(s@),
    {
        let chars = chars_of(s);
        let w = split_words(&chars);
        let date_word: Vec<char> = if w.len() > 0 {
            w[0].clone()
        } else {
            Vec::new()
        };
        let time_word: Vec<char> = if w.len() > 1 {
            w[1].clone()
        } else {
            Vec::new()
        };
        let dp = split_chars(&date_word, '/');
        let tp = split_chars(&time_word, ':');
        let year = field_at(&dp, 0, 0xffff) as u16;
        let month = field_at(&dp, 1, 0xff) as u8;
        let day = field_at(&dp, 2, 0xff) as u8;
        let hour = field_at(&tp, 0, 0xff) as u8;
        let minute = field_at(&tp, 1, 0xff) as u8;
        let second = field_at(&tp, 2, 0xff) as u8;
        DateTime { date: Date::new(year, month, day), time: Time::new(hour, minute, second) }
    }

    /// Seconds from the epoch to this date and time.
    pub fn to_unix_seconds(&self) -> (r: u64)
        requires
            self.is_valid(),
        ensures
            r as int == self.seconds_since_epoch(),
    {
        let target = self.date.year as u32;
        let mut year: u32 = 1970;
        let mut days: u64 = 0;
        while year < target
            invariant
                1970 <= year <= target,
                target == self.date.year,
                days as int == days_before_year(year as int),
            decreases target - year,
        {
            proof {
                lemma_days_before_year_monotone(year as int + 1, target as int);
                lemma_days_before_year_bounded(target as int);
            }
            days += if DateTime::is_leap_year(year) {
                366
            } else {
                365
            };
            year += 1;
        }
        proof {
            lemma_days_before_year_bounded(target as int);
        }
        let m = self.date.month as u64;
        let mut month_days: u64 = 0;
        let mut i: u64 = 1;
        while i < m
            invariant
                1 <= i <= m <= 12,
                m == self.date.month,
                month_days as int == days_before_month(target as int, i as int),
            decreases m - i,
        {
            month_days += if i == 2 {
                if DateTime::is_leap_year(target) {
                    29
                } else {
                    28
                }
            } else if i == 4 || i == 6 || i == 9 || i == 11 {
                30
            } else {
                31
            };
            i += 1;
        }
        let day_count = days + month_days + self.date.day as u64 - 1;
        day_count * SECS_PER_DAY + self.time.hour as u64 * SECS_PER_HOUR + self.time.minute as u64
            * SECS_PER_MIN + self.time.second as u64
    }

    /// The present instant by the system clock; a clock that reads before the epoch, or past the
    /// last representable instant, gives that end of the range.
    pub fn now() -> (r: DateTime)
        ensures
            exists|secs: int| 0 <= secs < MAX_UNIX_SECONDS && r.is_instant(secs),
    {
        let secs = match unix_seconds_now() {
            Some(s) => if s < MAX_UNIX_SECONDS {
                s
            } else {
                MAX_UNIX_SECONDS - 1
            },
            None => 0,
        };
        DateTime::from_unix_seconds(secs)
    }
}

/// `YYYY/MM/DD HH:MM:SS`: the year padded with zeros to four digits, every other field to two.
pub open spec fn format_text(dt: DateTime) -> Seq<char> {
    date_text(dt.date) + seq![' '] + time_text(dt.time)
}

pub open spec fn date_text(d: Date) -> Seq<char> {
    zero_pad(decimal(d.year as nat), 4) + seq!['/'] + zero_pad(decimal(d.month as nat), 2)
        + seq!['/'] + zero_pad(decimal(d.day as nat), 2)
}

pub open spec fn time_text(t: Time) -> Seq<char> {
    zero_pad(decimal(t.hour as nat), 2) + seq![':'] + zero_pad(decimal(t.minute as nat), 2)
        + seq![':'] + zero_pad(decimal(t.second as nat), 2)
}

/// Field `i` of `parts` read as an unsigned number no larger than `max`; 0 where it is missing
/// or is no such number.
pub open spec fn field_value(parts: Seq<Seq<char>>, i: int, max: nat) -> nat {
    if 0 <= i < parts.len() {
        match parse_unsigned(parts[i], max) {
            Some(v) => v,
            None => 0,
        }
    } else {
        0
    }
}

/// The timestamp that the text `s` gives: its first word split on `/` into year, month and day,
/// its second word split on `:` into hour, minute and second; every field that is missing, not
/// a number, or too large for its integer type reads as 0.
pub open spec fn parse_text(s: Seq<char>) -> DateTime {
    let w = words(s);
    let date_word = if w.len() > 0 {
        w[0]
    } else {
        Seq::<char>::empty()
    };
    let time_word = if w.len() > 1 {
        w[1]
    } else {
        Seq::<char>::empty()
    };
    let dp = split_on(date_word, '/');
    let tp = split_on(time_word, ':');
    DateTime {
        date: Date {
            year: field_value(dp, 0, 0xffff) as u16,
            month: field_value(dp, 1, 0xff) as u8,
            day: field_value(dp, 2, 0xff) as u8,
        },
        time: Time {
            hour: field_value(tp, 0, 0xff) as u8,
            minute: field_value(tp, 1, 0xff) as u8,
            second: field_value(tp, 2, 0xff) as u8,
        },
    }
}

fn field_at(parts: &Vec<Vec<char>>, i: usize, max: u64) -> (r: u64)
    requires
        max <= u32::MAX,
    ensures
        r == field_value(pieces(parts@), i as int, max as nat),
{
    if i < parts.len() {
        match parse_unsigned_chars(&parts[i], max) {
            Some(v) => v,
            None => 0,
        }
    } else {
        0
    }
}

proof fn lemma_padded_plain(n: nat, width: nat, max: nat)
    requires
        n <= max,
    ensures
        zero_pad(decimal(n), width).len() > 0,
        !has_space(zero_pad(decimal(n), width)),
        !has_char(zero_pad(decimal(n), width), '/'),
        !has_char(zero_pad(decimal(n), width), ':'),
        parse_unsigned(zero_pad(decimal(n), width), max) == Some(n),
{
    lemma_parse_padded(n, width, max);
    let p = zero_pad(decimal(n), width);
    assert forall|i: int| 0 <= i < p.len() implies is_digit(#[trigger] p[i]) by {
        assert(all_digits(p));
    }
}

proof fn lemma_padded_no_char(n: nat, width: nat, c: char)
    requires
        !is_digit(c),
    ensures
        !has_char(zero_pad(decimal(n), width), c),
{
    lemma_parse_padded(n, width, n);
    lemma_digits_plain(zero_pad(decimal(n), width), c);
}

/// The text of a timestamp holds no brace and no line break.
pub proof fn lemma_format_plain(dt: DateTime, c: char)
    requires
        c == '{' || c == '}' || c == '\n',
    ensures
        !has_char(format_text(dt), c),
{
    let y = zero_pad(decimal(dt.date.year as nat), 4);
    let mo = zero_pad(decimal(dt.date.month as nat), 2);
    let d = zero_pad(decimal(dt.date.day as nat), 2);
    let h = zero_pad(decimal(dt.time.hour as nat), 2);
    let mi = zero_pad(decimal(dt.time.minute as nat), 2);
    let se = zero_pad(decimal(dt.time.second as nat), 2);
    lemma_padded_no_char(dt.date.year as nat, 4, c);
    lemma_padded_no_char(dt.date.month as nat, 2, c);
    lemma_padded_no_char(dt.date.day as nat, 2, c);
    lemma_padded_no_char(dt.time.hour as nat, 2, c);
    lemma_padded_no_char(dt.time.minute as nat, 2, c);
    lemma_padded_no_char(dt.time.second as nat, 2, c);
    assert(!has_char(seq!['/'], c) && !has_char(seq![':'], c) && !has_char(seq![' '], c));
    lemma_no_char_concat(y, seq!['/'], c);
    lemma_no_char_concat(y + seq!['/'], mo, c);
    lemma_no_char_concat(y + seq!['/'] + mo, seq!['/'], c);
    lemma_no_char_concat(y + seq!['/'] + mo + seq!['/'], d, c);
    lemma_no_char_concat(h, seq![':'], c);
    lemma_no_char_concat(h + seq![':'], mi, c);
    lemma_no_char_concat(h + seq![':'] + mi, seq![':'], c);
    lemma_no_char_concat(h + seq![':'] + mi + seq![':'], se, c);
    lemma_no_char_concat(date_text(dt.date), seq![' '], c);
    lemma_no_char_concat(date_text(dt.date) + seq![' '], time_text(dt.time), c);
}

/// Formatting a timestamp and parsing the text gives the same timestamp back, for every value of
/// its fields.
pub proof fn lemma_format_parse(dt: DateTime)
    ensures
        parse_text(format_text(dt)) == dt,
{
    let y = zero_pad(decimal(dt.date.year as nat), 4);
    let mo = zero_pad(decimal(dt.date.month as nat), 2);
    let d = zero_pad(decimal(dt.date.day as nat), 2);
    let h = zero_pad(decimal(dt.time.hour as nat), 2);
    let mi = zero_pad(decimal(dt.time.minute as nat), 2);
    let se = zero_pad(decimal(dt.time.second as nat), 2);
    lemma_padded_plain(dt.date.year as nat, 4, 0xffff);
    lemma_padded_plain(dt.date.month as nat, 2, 0xff);
    lemma_padded_plain(dt.date.day as nat, 2, 0xff);
    lemma_padded_plain(dt.time.hour as nat, 2, 0xff);
    lemma_padded_plain(dt.time.minute as nat, 2, 0xff);
    lemma_padded_plain(dt.time.second as nat, 2, 0xff);
    let dw = date_text(dt.date);
    let tw = time_text(dt.time);
    assert(!has_space(dw)) by {
        if has_space(dw) {
            let k = choose|k: int| 0 <= k < dw.len() && crate::text::is_space(dw[k]);
            if k < y.len() {
                assert(dw[k] == y[k]);
            } else if k == y.len() {
            } else if k < y.len() + 1 + mo.len() {
                assert(dw[k] == mo[k - y.len() - 1]);
            } else if k == y.len() + 1 + mo.len() {
            } else {
                assert(dw[k] == d[k - y.len() - 2 - mo.len()]);
            }
        }
    }
    assert(!has_space(tw)) by {
        if has_space(tw) {
            let k = choose|k: int| 0 <= k < tw.len() && crate::text::is_space(tw[k]);
            if k < h.len() {
                assert(tw[k] == h[k]);
            } else if k == h.len() {
            } else if k < h.len() + 1 + mi.len() {
                assert(tw[k] == mi[k - h.len() - 1]);
            } else if k == h.len() + 1 + mi.len() {
            } else {
                assert(tw[k] == se[k - h.len() - 2 - mi.len()]);
            }
        }
    }
    assert(dw.len() > 0 && tw.len() > 0);
    lemma_two_words(dw, tw);
    lemma_split_three(y, mo, d, '/');
    lemma_split_three(h, mi, se, ':');
}

impl std::str::FromStr for DateTime {
    type Err = DateTimeParseError;

    fn from_str(s: &str) -> (r: Result<DateTime, DateTimeParseError>)
        ensures
            r is Ok && r->Ok_0 == parse_text(s@),
    {
        Ok(DateTime::from_text(s))
    }
}

/// Counting the seconds of a valid timestamp and building the timestamp of that instant gives it
/// back: `back`, what `from_unix_seconds` returns for those seconds, is `dt`.
pub proof fn lemma_seconds_round_trip(dt: DateTime, back: DateTime)
    requires
        dt.is_valid(),
        back.is_instant(dt.seconds_since_epoch()),
    ensures
        back == dt,
{
    lemma_instant_unique(back, dt);
}

/// Relies on SystemTime::now and SystemTime::duration_since: whole seconds from the Unix epoch to
/// the clock's present reading, or None when the clock reads earlier than the epoch.
#[verifier::external_body]
fn unix_seconds_now() -> (r: Option<u64>) {
    std::time::SystemTime::now().duration_since(std::time::UNIX_EPOCH).ok().map(|d| d.as_secs())
}

} // verus!
