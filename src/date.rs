use chrono::format::ParseError as ChronoParseError;
use chrono::{Datelike, NaiveDate, NaiveTime, Timelike, Utc};
use vstd::arithmetic::div_mod::{lemma_fundamental_div_mod, lemma_mod_multiples_vanish, lemma_small_mod};
use vstd::prelude::*;

verus! {

#[verifier::external_type_specification]
#[verifier::external_body]
pub struct ExChronoParseError(ChronoParseError);

#[verifier::external_type_specification]
#[verifier::external_body]
pub struct ExParseIntError(std::num::ParseIntError);

/// Why a user-supplied date, stay length, weekday or time was refused.
#[derive(Debug, PartialEq)]
pub enum ParseError {
    ChronoError(ChronoParseError),
    DateInThePastError(String),
    InvalidWeekday(String),
    ParseIntError(std::num::ParseIntError),
}

/// Date token that stands for today.
pub const NOW: &'static str = "now";

/// Date token that stands for two weeks from today.
pub const PLUS_TWO_WEEKS: &'static str = "+2 weeks";

/// Message for a stay length below one day.
pub const STAY_TOO_SHORT: &'static str = "Number of days must be greater than 0!";

/// Appended to a date that lies before today.
pub const IN_THE_PAST: &'static str = " is in the past!";

/// Appended to a lower-cased word that names no weekday.
pub const NOT_A_WEEKDAY: &'static str = " is an invalid weekday name!";

/// Day number of the earliest date the calendar library represents (-262143-01-01).
pub const MIN_DAY: i32 = -95746129;

/// Day number of the latest date the calendar library represents (262142-12-31).
pub const MAX_DAY: i32 = 95745399;

/// A time of day at whole-second resolution.
#[derive(Clone, Copy, Debug, PartialEq, Eq, Structural)]
pub struct TimeOfDay {
    /// Seconds since midnight, below 86400.
    pub secs: u32,
}

impl TimeOfDay {
    pub open spec fn wf(self) -> bool {
        self.secs < 86400
    }
}

/// Whether `c` is an ASCII decimal digit.
pub open spec fn is_digit(c: char) -> bool {
    '0' <= c <= '9'
}

/// Value of a string of decimal digits.
pub open spec fn digits_value(s: Seq<char>) -> int
    decreases s.len(),
{
    if s.len() == 0 {
        0
    } else {
        digits_value(s.drop_last()) * 10 + (s.last() as u32 - '0' as u32)
    }
}

pub open spec fn all_digits(s: Seq<char>) -> bool {
    forall|i: int| 0 <= i < s.len() ==> is_digit(#[trigger] s[i])
}

/// Value of an optional `+` or `-` sign followed by at least one decimal
/// digit; `None` for any other text.
pub open spec fn signed_text_value(s: Seq<char>) -> Option<int> {
    if s.len() > 0 && (s[0] == '+' || s[0] == '-') {
        let body = s.subrange(1, s.len() as int);
        if body.len() > 0 && all_digits(body) {
            Some(
                if s[0] == '-' {
                    -digits_value(body)
                } else {
                    digits_value(body)
                },
            )
        } else {
            None
        }
    } else if s.len() > 0 && all_digits(s) {
        Some(digits_value(s))
    } else {
        None
    }
}

/// Whether `s` is a decimal integer text whose value fits in `i64`.
pub open spec fn is_i64_text(s: Seq<char>) -> bool {
    &&& signed_text_value(s) is Some
    &&& i64::MIN <= signed_text_value(s)->Some_0 <= i64::MAX
}

/// Relies on `str::parse::<i64>`: it accepts exactly an optional sign
/// followed by decimal digits whose value fits in `i64`, and returns that value.
#[verifier::external_body]
fn parse_i64(s: &str) -> (r: Result<i64, std::num::ParseIntError>)
    ensures
        r is Ok <==> is_i64_text(s@),
        r matches Ok(v) ==> signed_text_value(s@) == Some(v as int),
{
    s.parse::<i64>()
}

/// The day number that chrono's `%Y-%m-%d` parser reads from a text, if any.
pub uninterp spec fn ymd_text_day(s: Seq<char>) -> Option<int>;

/// The text that chrono's `Debug` prints for the date with a day number.
pub uninterp spec fn date_text(day: int) -> Seq<char>;

/// Seconds since midnight that chrono's `%H:%M` parser reads from a text, if any.
pub uninterp spec fn hm_text_seconds(s: Seq<char>) -> Option<int>;

/// The lower-case mapping of a text, as `str::to_lowercase` computes it.
pub uninterp spec fn lower_of(s: Seq<char>) -> Seq<char>;

/// Relies on chrono's `Utc::now` and `NaiveDate::num_days_from_ce`: today's
/// date in UTC, which lies in chrono's range.
#[verifier::external_body]
fn today() -> (r: Date)
    ensures
        r.valid(),
{
    Date { days_from_ce: Utc::now().date_naive().num_days_from_ce() }
}

/// Relies on chrono's `NaiveDate::parse_from_str` with the `%Y-%m-%d` format;
/// every date it returns lies in chrono's range.
#[verifier::external_body]
fn parse_ymd(s: &str) -> (r: Result<Date, ChronoParseError>)
    ensures
        match r {
            Ok(d) => ymd_text_day(s@) == Some(d.day()) && d.valid(),
            Err(_) => ymd_text_day(s@) is None,
        },
{
    match NaiveDate::parse_from_str(s, "%Y-%m-%d") {
        Ok(d) => Ok(Date { days_from_ce: d.num_days_from_ce() }),
        Err(e) => Err(e),
    }
}

/// Relies on chrono's `Debug` for `NaiveDate` (`2020-03-30`), reached through
/// `NaiveDate::from_num_days_from_ce_opt`, which succeeds on chrono's range.
#[verifier::external_body]
fn debug_text(d: Date) -> (r: String)
    requires
        d.valid(),
    ensures
        r@ == date_text(d.day()),
{
    match NaiveDate::from_num_days_from_ce_opt(d.days_from_ce) {
        Some(n) => format!("{:?}", n),
        None => String::new(),
    }
}

/// Relies on chrono's `NaiveTime::parse_from_str` with the `%H:%M` format; the
/// seconds since midnight of a `NaiveTime` stay below 86400.
#[verifier::external_body]
fn parse_hm(s: &str) -> (r: Result<TimeOfDay, ChronoParseError>)
    ensures
        match r {
            Ok(t) => hm_text_seconds(s@) == Some(t.secs as int) && t.wf(),
            Err(_) => hm_text_seconds(s@) is None,
        },
{
    match NaiveTime::parse_from_str(s, "%H:%M") {
        Ok(t) => Ok(TimeOfDay { secs: t.num_seconds_from_midnight() }),
        Err(e) => Err(e),
    }
}

/// Relies on `str::to_lowercase`: the result depends on the text alone.
#[verifier::external_body]
fn lowercase(s: &str) -> (r: String)
    ensures
        r@ == lower_of(s@),
{
    s.to_lowercase()
}

/// A day of the week.
#[derive(Clone, Copy, Debug, PartialEq, Eq, Structural)]
pub enum Weekday {
    Mon,
    Tue,
    Wed,
    Thu,
    Fri,
    Sat,
    Sun,
}

impl Weekday {
    /// Position in the week, counting from Monday as 0.
    pub open spec fn index(self) -> int {
        match self {
            Weekday::Mon => 0,
            Weekday::Tue => 1,
            Weekday::Wed => 2,
            Weekday::Thu => 3,
            Weekday::Fri => 4,
            Weekday::Sat => 5,
            Weekday::Sun => 6,
        }
    }

    pub fn num_days_from_monday(&self) -> (r: u8)
        ensures
            r as int == self.index(),
    {
        match self {
            Weekday::Mon => 0,
            Weekday::Tue => 1,
            Weekday::Wed => 2,
            Weekday::Thu => 3,
            Weekday::Fri => 4,
            Weekday::Sat => 5,
            Weekday::Sun => 6,
        }
    }
}

/// A calendar date of the proleptic Gregorian calendar, held as its day
/// number: 0001-01-01 is day 1, 0000-12-31 is day 0.
#[derive(Clone, Copy, Debug, PartialEq, Eq, Structural)]
pub struct Date {
    pub days_from_ce: i32,
}

/// Weekday index (Monday = 0) of a day number; day 1 (0001-01-01) was a Monday.
pub open spec fn weekday_index_of(day: int) -> int {
    (day - 1) % 7
}

impl Date {
    pub open spec fn day(self) -> int {
        self.days_from_ce as int
    }

    /// Whether the date lies in the range the calendar library represents.
    pub open spec fn valid(self) -> bool {
        MIN_DAY <= self.days_from_ce <= MAX_DAY
    }

    pub fn weekday(&self) -> (r: Weekday)
        ensures
            r.index() == weekday_index_of(self.day()),
    {
        let k: i64 = ((self.days_from_ce as i64 - 1) % 7 + 7) % 7;
        if k == 0 {
            Weekday::Mon
        } else if k == 1 {
            Weekday::Tue
        } else if k == 2 {
            Weekday::Wed
        } else if k == 3 {
            Weekday::Thu
        } else if k == 4 {
            Weekday::Fri
        } else if k == 5 {
            Weekday::Sat
        } else {
            Weekday::Sun
        }
    }
}


/// Reads a stay given as a count of days ("3" for Friday to Sunday) and
/// returns its length in nights, one less than the count.
pub fn parse_duration_from_str(days: &str) -> (r: Result<i64, ParseError>)
    ensures
        match r {
            Ok(n) => is_i64_text(days@) && signed_text_value(days@)->Some_0 >= 1 && n
                == signed_text_value(days@)->Some_0 - 1,
            Err(ParseError::ParseIntError(_)) => !is_i64_text(days@),
            Err(ParseError::DateInThePastError(m)) => is_i64_text(days@) && signed_text_value(
                days@,
            )->Some_0 < 1 && m@ == STAY_TOO_SHORT@,
            Err(_) => false,
        },
{
    match parse_i64(days) {
        Ok(n) => {
            if n >= 1 {
                Ok(n - 1)
            } else {
                Err(ParseError::DateInThePastError(String::from_str(STAY_TOO_SHORT)))
            }
        },
        Err(e) => Err(ParseError::ParseIntError(e)),
    }
}

/// The lower-case English name of a weekday.
pub open spec fn weekday_name(w: Weekday) -> Seq<char> {
    match w {
        Weekday::Mon => "monday"@,
        Weekday::Tue => "tuesday"@,
        Weekday::Wed => "wednesday"@,
        Weekday::Thu => "thursday"@,
        Weekday::Fri => "friday"@,
        Weekday::Sat => "saturday"@,
        Weekday::Sun => "sunday"@,
    }
}

/// Whether two texts hold the same characters.
fn same_text(a: &String, b: &str) -> (r: bool)
    ensures
        r == (a@ == b@),
{
    *a == String::from_str(b)
}

/// Reads a full English weekday name, in any mix of upper and lower case.
pub fn parse_weekday_from_str(weekday: &str) -> (r: Result<Weekday, ParseError>)
    ensures
        match r {
            Ok(w) => lower_of(weekday@) == weekday_name(w),
            Err(ParseError::InvalidWeekday(m)) => {
                &&& forall|w: Weekday| lower_of(weekday@) != #[trigger] weekday_name(w)
                &&& m@ == lower_of(weekday@) + NOT_A_WEEKDAY@
            },
            Err(_) => false,
        },
{
    let day = lowercase(weekday);
    if same_text(&day, "monday") {
        Ok(Weekday::Mon)
    } else if same_text(&day, "tuesday") {
        Ok(Weekday::Tue)
    } else if same_text(&day, "wednesday") {
        Ok(Weekday::Wed)
    } else if same_text(&day, "thursday") {
        Ok(Weekday::Thu)
    } else if same_text(&day, "friday") {
        Ok(Weekday::Fri)
    } else if same_text(&day, "saturday") {
        Ok(Weekday::Sat)
    } else if same_text(&day, "sunday") {
        Ok(Weekday::Sun)
    } else {
        assert forall|w: Weekday| day@ != #[trigger] weekday_name(w) by {
            match w {
                Weekday::Mon => {},
                Weekday::Tue => {},
                Weekday::Wed => {},
                Weekday::Thu => {},
                Weekday::Fri => {},
                Weekday::Sat => {},
                Weekday::Sun => {},
            }
        }
        let mut msg = day;
        msg.append(NOT_A_WEEKDAY);
        Err(ParseError::InvalidWeekday(msg))
    }
}

/// The day a date text names relative to `today`, when it is accepted: the
/// two tokens, or a `%Y-%m-%d` date that is not before today.
pub open spec fn resolved_day(s: Seq<char>, today: int) -> Option<int> {
    if s == NOW@ {
        Some(today)
    } else if s == PLUS_TWO_WEEKS@ {
        Some(today + 14)
    } else {
        match ymd_text_day(s) {
            Some(d) => if d >= today {
                Some(d)
            } else {
                None
            },
            None => None,
        }
    }
}

/// What reading the date text `s` on the day `today` gives.
pub open spec fn date_outcome(s: Seq<char>, today: int, r: Result<Date, ParseError>) -> bool {
    match r {
        Ok(d) => resolved_day(s, today) == Some(d.day()),
        Err(ParseError::ChronoError(_)) => s != NOW@ && s != PLUS_TWO_WEEKS@ && ymd_text_day(
            s,
        ) is None,
        Err(ParseError::DateInThePastError(m)) => {
            &&& s != NOW@
            &&& s != PLUS_TWO_WEEKS@
            &&& ymd_text_day(s) is Some
            &&& ymd_text_day(s)->Some_0 < today
            &&& m@ == date_text(ymd_text_day(s)->Some_0) + IN_THE_PAST@
        },
        Err(_) => false,
    }
}

/// Reads a date as seen on the day `today`: "now", "+2 weeks", or a
/// `YYYY-MM-DD` date that is not in the past.
pub fn parse_date_at(date: &str, today: Date) -> (r: Result<Date, ParseError>)
    requires
        today.valid(),
    ensures
        date_outcome(date@, today.day(), r),
{
    let text = String::from_str(date);
    if same_text(&text, NOW) {
        return Ok(today);
    } else if same_text(&text, PLUS_TWO_WEEKS) {
        return Ok(Date { days_from_ce: today.days_from_ce + 14 });
    }
    match parse_ymd(date) {
        Err(e) => Err(ParseError::ChronoError(e)),
        Ok(parsed) => {
            if parsed.days_from_ce < today.days_from_ce {
                let mut msg = debug_text(parsed);
                msg.append(IN_THE_PAST);
                Err(ParseError::DateInThePastError(msg))
            } else {
                Ok(parsed)
            }
        },
    }
}

/// Reads a date as seen today (in UTC): "now", "+2 weeks", or a
/// `YYYY-MM-DD` date that is not in the past.
pub fn parse_date_from_str(date: &str) -> (r: Result<Date, ParseError>)
    ensures
        exists|t: int| MIN_DAY <= t <= MAX_DAY && #[trigger] date_outcome(date@, t, r),
{
    let t = today();
    parse_date_at(date, t)
}

/// Reads a time of day written `HH:MM`.
pub fn parse_hour_from_str(time: &str) -> (r: Result<TimeOfDay, ParseError>)
    ensures
        match r {
            Ok(t) => hm_text_seconds(time@) == Some(t.secs as int) && t.wf(),
            Err(ParseError::ChronoError(_)) => hm_text_seconds(time@) is None,
            Err(_) => false,
        },
{
    match parse_hm(time) {
        Ok(t) => Ok(t),
        Err(e) => Err(ParseError::ChronoError(e)),
    }
}

/// Number of leading decimal digits of `s`.
pub open spec fn digit_run(s: Seq<char>) -> nat
    decreases s.len(),
{
    if s.len() == 0 || !is_digit(s[0]) {
        0
    } else {
        1 + digit_run(s.drop_first())
    }
}

/// Seconds in one duration unit: hours, minutes or seconds.
pub open spec fn unit_secs(c: char) -> int {
    if c == 'H' {
        3600
    } else if c == 'M' {
        60
    } else if c == 'S' {
        1
    } else {
        0
    }
}

/// Position of a duration unit in the order `H`, `M`, `S`.
pub open spec fn unit_rank(c: char) -> int {
    if c == 'H' {
        0
    } else if c == 'M' {
        1
    } else {
        2
    }
}

/// Seconds of the groups `<1 to 9 digits><unit>` that make up `s`, units
/// taken in the order `H`, `M`, `S`, each at most once and none ranked below
/// `min_rank`; `None` when `s` is not such a list.
pub open spec fn duration_groups(s: Seq<char>, min_rank: int) -> Option<int>
    decreases s.len(),
{
    if s.len() == 0 {
        Some(0)
    } else {
        let k = digit_run(s) as int;
        if k == 0 || k > 9 || k >= s.len() || unit_secs(s[k]) == 0 || unit_rank(s[k]) < min_rank {
            None
        } else {
            match duration_groups(s.subrange(k + 1, s.len() as int), unit_rank(s[k]) + 1) {
                Some(rest) => Some(digits_value(s.take(k)) * unit_secs(s[k]) + rest),
                None => None,
            }
        }
    }
}

/// Seconds of an ISO 8601 time duration such as `PT2H37M` or `PT90S`.
pub open spec fn iso_duration_secs(s: Seq<char>) -> Option<int> {
    if s.len() > 2 && s[0] == 'P' && s[1] == 'T' {
        duration_groups(s.subrange(2, s.len() as int), 0)
    } else {
        None
    }
}

proof fn lemma_digits_value_bound(s: Seq<char>)
    requires
        all_digits(s),
    ensures
        0 <= digits_value(s) < pow10(s.len()),
    decreases s.len(),
{
    if s.len() > 0 {
        lemma_digits_value_bound(s.drop_last());
    }
}

/// Ten to the power `n`.
pub open spec fn pow10(n: nat) -> int
    decreases n,
{
    if n == 0 {
        1
    } else {
        10 * pow10((n - 1) as nat)
    }
}

proof fn lemma_duration_groups_bound(s: Seq<char>, min_rank: int)
    requires
        0 <= min_rank <= 3,
        duration_groups(s, min_rank) is Some,
    ensures
        0 <= duration_groups(s, min_rank)->Some_0 <= (3 - min_rank) * 3_600_000_000_000,
    decreases s.len(),
{
    if s.len() > 0 {
        let k = digit_run(s) as int;
        let rest = s.subrange(k + 1, s.len() as int);
        lemma_duration_groups_bound(rest, unit_rank(s[k]) + 1);
        lemma_digit_run(s);
        lemma_digits_value_bound(s.take(k));
        lemma_pow10_mono(k as nat, 9);
        lemma_pow10_nine();
        let d = digits_value(s.take(k as int));
        let u = unit_secs(s[k]);
        assert(d * u <= 3_600_000_000_000) by (nonlinear_arith)
            requires
                0 <= d < 1_000_000_000,
                0 <= u <= 3600,
        ;
        assert(0 <= d * u) by (nonlinear_arith)
            requires
                0 <= d,
                0 <= u,
        ;
    }
}

proof fn lemma_pow10_nine()
    ensures
        pow10(9) == 1_000_000_000,
{
    assert(pow10(0) == 1);
    assert(pow10(1) == 10);
    assert(pow10(2) == 100);
    assert(pow10(3) == 1000);
    assert(pow10(4) == 10_000);
    assert(pow10(5) == 100_000);
    assert(pow10(6) == 1_000_000);
    assert(pow10(7) == 10_000_000);
    assert(pow10(8) == 100_000_000);
}

proof fn lemma_pow10_mono(a: nat, b: nat)
    requires
        a <= b,
    ensures
        pow10(a) <= pow10(b),
        1 <= pow10(a),
    decreases b,
{
    if a < b {
        lemma_pow10_mono(a, (b - 1) as nat);
    } else if a > 0 {
        lemma_pow10_mono((a - 1) as nat, (a - 1) as nat);
    }
}

proof fn lemma_digit_run(s: Seq<char>)
    ensures
        0 <= digit_run(s) <= s.len(),
        all_digits(s.take(digit_run(s) as int)),
        digit_run(s) < s.len() ==> !is_digit(s[digit_run(s) as int]),
    decreases s.len(),
{
    if s.len() > 0 && is_digit(s[0]) {
        lemma_digit_run(s.drop_first());
        let k = digit_run(s) as int;
        assert forall|i: int| 0 <= i < k implies is_digit(#[trigger] s.take(k)[i]) by {
            if i > 0 {
                assert(s.take(k)[i] == s.drop_first().take(k - 1)[i - 1]);
            }
        }
    }
}

/// Digit run of a text whose first `k` characters are digits and whose
/// `k`-th, if any, is not.
proof fn lemma_digit_run_at(s: Seq<char>, k: int)
    requires
        0 <= k <= s.len(),
        forall|i: int| 0 <= i < k ==> is_digit(#[trigger] s[i]),
        k < s.len() ==> !is_digit(s[k]),
    ensures
        digit_run(s) == k,
    decreases k,
{
    if k > 0 {
        assert forall|i: int| 0 <= i < k - 1 implies is_digit(#[trigger] s.drop_first()[i]) by {
            assert(s.drop_first()[i] == s[i + 1]);
        }
        lemma_digit_run_at(s.drop_first(), k - 1);
    }
}

/// A text whose first `k` characters are digits has a digit run of at least `k`.
proof fn lemma_digit_run_at_least(s: Seq<char>, k: int)
    requires
        0 <= k <= s.len(),
        forall|i: int| 0 <= i < k ==> is_digit(#[trigger] s[i]),
    ensures
        digit_run(s) >= k,
    decreases k,
{
    if k > 0 {
        assert(is_digit(s[0]));
        assert forall|i: int| 0 <= i < k - 1 implies is_digit(#[trigger] s.drop_first()[i]) by {
            assert(s.drop_first()[i] == s[i + 1]);
        }
        lemma_digit_run_at_least(s.drop_first(), k - 1);
    }
}

/// Reads an ISO 8601 time duration made of hours, minutes and seconds
/// (`PT2H37M`), each written with one to nine digits, and returns it in
/// seconds.
pub fn parse_iso_duration(text: &str) -> (r: Option<i64>)
    ensures
        match iso_duration_secs(text@) {
            Some(v) => r == Some(v as i64) && 0 <= v <= i64::MAX,
            None => r is None,
        },
{
    let n = text.unicode_len();
    if n < 3 || text.get_char(0) != 'P' || text.get_char(1) != 'T' {
        return None;
    }
    let ghost s = text@;
    let ghost body = s.subrange(2, n as int);
    let mut pos: usize = 2;
    let mut min_rank: u8 = 0;
    let mut total: i64 = 0;
    assert(s.subrange(2, n as int) == body);
    while pos < n
        invariant
            n == s.len(),
            s == text@,
            body == s.subrange(2, n as int),
            2 <= pos <= n,
            min_rank <= 3,
            0 <= total <= min_rank * 3_600_000_000_000,
            duration_groups(body, 0) == match duration_groups(
                s.subrange(pos as int, n as int),
                min_rank as int,
            ) {
                Some(v) => Some(total + v),
                None => None::<int>,
            },
        decreases n - pos,
    {
        let ghost rest = s.subrange(pos as int, n as int);
        let start = pos;
        let mut value: i64 = 0;
        while pos < n && pos - start < 10 && '0' <= text.get_char(pos) && text.get_char(pos) <= '9'
            invariant
                n == s.len(),
                s == text@,
                start <= pos <= n,
                pos - start <= 10,
                rest == s.subrange(start as int, n as int),
                forall|i: int| 0 <= i < pos - start ==> is_digit(#[trigger] rest[i]),
                value == digits_value(rest.take(pos - start)),
                0 <= value < pow10((pos - start) as nat),
            decreases n - pos,
        {
            let c = text.get_char(pos);
            proof {
                assert(rest.take(pos - start + 1).drop_last() == rest.take(pos - start));
                assert(rest[pos - start] == c);
                lemma_pow10_mono((pos - start) as nat, 9);
                lemma_pow10_nine();
            }
            value = value * 10 + (c as u32 - '0' as u32) as i64;
            pos = pos + 1;
        }
        let k = pos - start;
        if k == 0 || k > 9 || pos >= n {
            proof {
                if k > 9 {
                    lemma_digit_run_at_least(rest, k as int);
                } else {
                    lemma_digit_run_at(rest, k as int);
                }
            }
            return None;
        }
        proof {
            lemma_digit_run_at(rest, k as int);
        }
        let unit = text.get_char(pos);
        assert(rest[k as int] == unit);
        let (secs, rank): (i64, u8) = if unit == 'H' {
            (3600, 0)
        } else if unit == 'M' {
            (60, 1)
        } else if unit == 'S' {
            (1, 2)
        } else {
            return None;
        };
        if rank < min_rank {
            return None;
        }
        proof {
            lemma_pow10_mono(k as nat, 9);
            lemma_pow10_nine();
            assert(rest.subrange(k + 1, rest.len() as int) == s.subrange(pos + 1, n as int));
            assert(value * secs <= 3_600_000_000_000) by (nonlinear_arith)
                requires
                    0 <= value < 1_000_000_000,
                    1 <= secs <= 3600,
            ;
            assert(0 <= value * secs) by (nonlinear_arith)
                requires
                    0 <= value,
                    1 <= secs,
            ;
        }
        total = total + value * secs;
        min_rank = rank + 1;
        pos = pos + 1;
    }
    assert(s.subrange(n as int, n as int).len() == 0);
    proof {
        lemma_duration_groups_bound(body, 0);
    }
    Some(total)
}

/// What `get_possible_travel_dates` reports when not even the first
/// candidate pair fits before the end of the range.
pub const NO_FEASIBLE_WINDOW: &'static str = "There is no possible out-inbound dates which could satisfy your query";

/// The first candidate outbound day: `from` itself, or the first day on or
/// after `from` that falls on the requested weekday.
pub open spec fn first_outbound(from: int, weekday: Option<Weekday>) -> int {
    match weekday {
        None => from,
        Some(w) => from + (w.index() - weekday_index_of(from)) % 7,
    }
}

/// Days between consecutive outbound dates: a week when a weekday is fixed.
pub open spec fn outbound_step(weekday: Option<Weekday>) -> int {
    if weekday is Some {
        7
    } else {
        1
    }
}

/// The `k`-th outbound day of the enumeration.
pub open spec fn nth_outbound(from: int, weekday: Option<Weekday>, k: int) -> int {
    first_outbound(from, weekday) + k * outbound_step(weekday)
}

/// Whether the constraints admit at least the first pair.
pub open spec fn window_feasible(from: int, until: int, stay: int, weekday: Option<Weekday>) -> bool {
    first_outbound(from, weekday) + stay <= until
}

/// Number of pairs enumerated when the window is feasible.
pub open spec fn pair_count(from: int, until: int, stay: int, weekday: Option<Weekday>) -> int {
    (until - stay - first_outbound(from, weekday)) / outbound_step(weekday) + 1
}

/// Every outbound day enumerated under a weekday constraint falls on that weekday.
pub proof fn lemma_nth_outbound_weekday(from: int, w: Weekday, k: int)
    ensures
        weekday_index_of(nth_outbound(from, Some(w), k)) == w.index(),
{
    let a = from - 1;
    let r = a % 7;
    let d = (w.index() - r) % 7;
    lemma_fundamental_div_mod(a, 7);
    lemma_fundamental_div_mod(w.index() - r, 7);
    let m = a / 7 - (w.index() - r) / 7 + k;
    assert(nth_outbound(from, Some(w), k) - 1 == 7 * m + w.index()) by (nonlinear_arith)
        requires
            a == 7 * (a / 7) + r,
            w.index() - r == 7 * ((w.index() - r) / 7) + d,
            m == a / 7 - (w.index() - r) / 7 + k,
            nth_outbound(from, Some(w), k) == from + d + k * 7,
            a == from - 1,
    ;
    lemma_mod_multiples_vanish(m, w.index(), 7);
    lemma_small_mod(w.index() as nat, 7);
}

/// The date pairs `(outbound, inbound)` with `inbound = outbound + stay`,
/// outbound starting at `from` (or the first matching weekday on or after it)
/// and advancing by one day (or one week), as long as `inbound <= until`.
pub fn get_possible_travel_dates(
    from: Date,
    until: Date,
    stay: i64,
    weekday: Option<Weekday>,
) -> (r: Result<Vec<(Date, Date)>, &'static str>)
    requires
        stay >= 0,
    ensures
        from.day() + stay > until.day() ==> r is Err,
        match r {
            Err(e) => {
                &&& !window_feasible(from.day(), until.day(), stay as int, weekday)
                &&& e@ == NO_FEASIBLE_WINDOW@
            },
            Ok(v) => {
                &&& window_feasible(from.day(), until.day(), stay as int, weekday)
                &&& v.len() == pair_count(from.day(), until.day(), stay as int, weekday)
                &&& forall|k: int|
                    0 <= k < v.len() ==> {
                        &&& (#[trigger] v[k]).0.day() == nth_outbound(from.day(), weekday, k)
                        &&& v[k].1.day() == v[k].0.day() + stay
                    }
                &&& forall|k: int|
                    0 <= k < v.len() - 1 ==> (#[trigger] v[k + 1]).0.day() == v[k].0.day()
                        + outbound_step(weekday)
                &&& match weekday {
                    None => {
                        &&& v.len() == until.day() - stay - from.day() + 1
                        &&& forall|k: int|
                            0 <= k < v.len() ==> (#[trigger] v[k]).0.day() == from.day() + k
                    },
                    Some(w) => forall|k: int|
                        0 <= k < v.len() ==> weekday_index_of((#[trigger] v[k]).0.day())
                            == w.index(),
                }
            },
        },
{
    let first: i64 = match weekday {
        None => from.days_from_ce as i64,
        Some(w) => {
            let target = w.num_days_from_monday() as i64;
            let current = from.weekday().num_days_from_monday() as i64;
            from.days_from_ce as i64 + (target - current + 7) % 7
        },
    };
    let step: i64 = match weekday {
        None => 1,
        Some(_) => 7,
    };
    assert(first == first_outbound(from.day(), weekday));
    if stay > until.days_from_ce as i64 - first {
        return Err(NO_FEASIBLE_WINDOW);
    }
    let last: i64 = until.days_from_ce as i64 - stay;
    let mut results: Vec<(Date, Date)> = Vec::new();
    let mut outbound: i64 = first;
    while outbound <= last
        invariant
            step == outbound_step(weekday),
            first == first_outbound(from.day(), weekday),
            from.day() <= first <= last,
            last == until.day() - stay,
            stay >= 0,
            outbound == first + results.len() * step,
            results.len() > 0 ==> outbound - step <= last,
            forall|k: int|
                0 <= k < results.len() ==> {
                    &&& (#[trigger] results@[k]).0.day() == nth_outbound(from.day(), weekday, k)
                    &&& results@[k].1.day() == results@[k].0.day() + stay
                },
        decreases last + step - outbound,
    {
        let out_day = Date { days_from_ce: outbound as i32 };
        let in_day = Date { days_from_ce: (outbound + stay) as i32 };
        results.push((out_day, in_day));
        outbound = outbound + step;
    }
    proof {
        if let Some(w) = weekday {
            assert forall|k: int| 0 <= k < results.len() implies weekday_index_of(
                (#[trigger] results@[k]).0.day(),
            ) == w.index() by {
                lemma_nth_outbound_weekday(from.day(), w, k);
            }
        }
        assert forall|k: int| 0 <= k < results.len() - 1 implies (#[trigger] results@[k + 1]).0.day()
            == results@[k].0.day() + step by {
            assert(nth_outbound(from.day(), weekday, k + 1) == nth_outbound(from.day(), weekday, k)
                + step) by (nonlinear_arith)
                requires
                    nth_outbound(from.day(), weekday, k + 1) == first + (k + 1) * step,
                    nth_outbound(from.day(), weekday, k) == first + k * step,
            ;
        }
        let n = results.len() as int;
        let span: int = last - first;
        let st: int = step as int;
        assert(n >= 1) by {
            if n == 0 {
                assert(outbound == first);
            }
        }
        assert((n - 1) * st <= span < n * st) by (nonlinear_arith)
            requires
                outbound == first + n * st,
                outbound - st <= last,
                outbound > last,
                span == last - first,
        ;
        assert(span / st == n - 1) by (nonlinear_arith)
            requires
                (n - 1) * st <= span < n * st,
                st >= 1,
                n >= 1,
        ;
    }
    Ok(results)
}

} // verus!
