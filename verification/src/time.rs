//! Time as an input.
//!
//! Nothing here reads a clock: the host stamps every event with a [`Timestamp`]. The civil
//! calendar is the proleptic Gregorian one, in UTC.

use crate::order::Ordered;
use crate::ordmap::{Key, Value};
use crate::text::{fixed_text, push_fixed};
use vstd::arithmetic::div_mod::lemma_fundamental_div_mod_converse;
use vstd::prelude::*;
use vstd::string::*;

verus! {

/// Nanoseconds in one second.
pub const NANOS_PER_SECOND: i64 = 1_000_000_000;

/// Quiet period after the last change before a batch forms.
pub const DEBOUNCE_NANOS: i64 = 2_000_000_000;

/// Longest a batch window stays open after its first change.
pub const WINDOW_NANOS: i64 = 10_000_000_000;

/// A fetch with no progress reported for this long is stalled.
pub const FETCH_STALL_NANOS: i64 = 60_000_000_000;

/// A commit not reported within this long is overdue.
pub const COMMIT_DEADLINE_NANOS: i64 = 30_000_000_000;

/// The `i64` nearest to a number.
pub open spec fn clamp_i64(x: int) -> i64 {
    if x > i64::MAX {
        i64::MAX
    } else if x < i64::MIN {
        i64::MIN
    } else {
        x as i64
    }
}

/// The sum, held at the ends of the range.
pub fn add_i64(a: i64, b: i64) -> (r: i64)
    ensures
        r == clamp_i64(a + b),
{
    let s: i128 = a as i128 + b as i128;
    if s > i64::MAX as i128 {
        i64::MAX
    } else if s < i64::MIN as i128 {
        i64::MIN
    } else {
        s as i64
    }
}

/// The difference, held at the ends of the range.
pub fn sub_i64(a: i64, b: i64) -> (r: i64)
    ensures
        r == clamp_i64(a - b),
{
    let s: i128 = a as i128 - b as i128;
    if s > i64::MAX as i128 {
        i64::MAX
    } else if s < i64::MIN as i128 {
        i64::MIN
    } else {
        s as i64
    }
}

/// A point in time as nanoseconds since the Unix epoch, supplied by the host.
#[derive(Clone, Copy, Debug, PartialEq, Eq, PartialOrd, Ord, Hash, Structural)]
pub struct Timestamp(pub i64);

impl Timestamp {
    /// Wraps nanoseconds since the Unix epoch.
    pub fn from_unix_nanos(nanos: i64) -> (r: Timestamp)
        ensures
            r.0 == nanos,
    {
        Timestamp(nanos)
    }

    /// Nanoseconds since the Unix epoch.
    pub fn as_unix_nanos(self) -> (r: i64)
        ensures
            r == self.0,
    {
        self.0
    }

    /// This time some nanoseconds on, held at the ends of the range.
    pub open spec fn plus(self, nanos: int) -> Timestamp {
        Timestamp(clamp_i64(self.0 + nanos))
    }

    /// This time plus `nanos`, held at the ends of the range.
    pub fn plus_nanos(self, nanos: i64) -> (r: Timestamp)
        ensures
            r == self.plus(nanos as int),
    {
        Timestamp(add_i64(self.0, nanos))
    }

    /// Nanoseconds from `earlier` to `self`, held at the ends of the range.
    pub fn since(self, earlier: Timestamp) -> (r: i64)
        ensures
            r == clamp_i64(self.0 - earlier.0),
    {
        sub_i64(self.0, earlier.0)
    }
}

impl Default for Timestamp {
    fn default() -> (r: Timestamp)
        ensures
            r.0 == 0,
    {
        Timestamp(0)
    }
}

impl DeepView for Timestamp {
    type V = Timestamp;

    open spec fn deep_view(&self) -> Timestamp {
        *self
    }
}

impl Value for Timestamp {
    fn dup(&self) -> (r: Timestamp) {
        *self
    }

    fn same(&self, other: &Timestamp) -> (r: bool) {
        *self == *other
    }
}

impl Ordered for i64 {
    open spec fn before(self, other: i64) -> bool {
        self < other
    }

    proof fn irreflexive(a: i64) {
    }

    proof fn transitive(a: i64, b: i64, c: i64) {
    }

    proof fn total(a: i64, b: i64) {
    }
}

impl Key for i64 {
    type O = i64;

    open spec fn key(&self) -> i64 {
        *self
    }

    fn less(&self, other: &i64) -> (r: bool) {
        *self < *other
    }

    fn copy_key(&self) -> (r: i64) {
        *self
    }
}

impl Value for i64 {
    fn dup(&self) -> (r: i64) {
        *self
    }

    fn same(&self, other: &i64) -> (r: bool) {
        *self == *other
    }
}

// ---- the calendar -----------------------------------------------------------

/// Whether a year has a 29th of February.
pub open spec fn is_leap(y: int) -> bool {
    (y % 4 == 0 && y % 100 != 0) || y % 400 == 0
}

/// How many days a month has.
pub open spec fn month_days(y: int, m: int) -> int {
    if m == 2 {
        if is_leap(y) {
            29
        } else {
            28
        }
    } else if m == 4 || m == 6 || m == 9 || m == 11 {
        30
    } else {
        31
    }
}

/// Whether a date is on the calendar.
pub open spec fn valid_date(y: int, m: int, d: int) -> bool {
    1 <= m <= 12 && 1 <= d <= month_days(y, m)
}

/// Days of a year that come before a month.
pub open spec fn days_before_month(y: int, m: int) -> int
    decreases m,
{
    if m <= 1 {
        0
    } else {
        days_before_month(y, m - 1) + month_days(y, m - 1)
    }
}

/// Days from the start of 1970 to the start of a year. The leap days up to the end of the year
/// before are every fourth year, less every hundredth, and every four-hundredth again; 477 of
/// them come before 1970, and 1970 times 365 is 719050.
pub open spec fn days_before_year(y: int) -> int {
    365 * y + (y - 1) / 4 - (y - 1) / 100 + (y - 1) / 400 - 719_527
}

/// The number of a date, counted from the first of January 1970.
pub open spec fn day_number(y: int, m: int, d: int) -> int {
    days_before_year(y) + days_before_month(y, m) + d - 1
}

/// The date that follows a date.
pub open spec fn next_date(t: (int, int, int)) -> (int, int, int) {
    if t.2 < month_days(t.0, t.1) {
        (t.0, t.1, t.2 + 1)
    } else if t.1 < 12 {
        (t.0, t.1 + 1, 1)
    } else {
        (t.0 + 1, 1, 1)
    }
}

proof fn lemma_months(y: int)
    ensures
        days_before_month(y, 1) == 0,
        days_before_month(y, 2) == 31,
        days_before_month(y, 3) == 31 + month_days(y, 2),
        days_before_month(y, 4) == 62 + month_days(y, 2),
        days_before_month(y, 5) == 92 + month_days(y, 2),
        days_before_month(y, 6) == 123 + month_days(y, 2),
        days_before_month(y, 7) == 153 + month_days(y, 2),
        days_before_month(y, 8) == 184 + month_days(y, 2),
        days_before_month(y, 9) == 215 + month_days(y, 2),
        days_before_month(y, 10) == 245 + month_days(y, 2),
        days_before_month(y, 11) == 276 + month_days(y, 2),
        days_before_month(y, 12) == 306 + month_days(y, 2),
{
    reveal_with_fuel(days_before_month, 13);
}

/// A year has as many days as its months have.
proof fn lemma_year_days(y: int)
    ensures
        days_before_year(y + 1) == days_before_year(y) + if is_leap(y) {
            366int
        } else {
            365int
        },
{
    assert(y / 4 == (y - 1) / 4 + if y % 4 == 0 { 1int } else { 0int });
    assert(y / 100 == (y - 1) / 100 + if y % 100 == 0 { 1int } else { 0int });
    assert(y / 400 == (y - 1) / 400 + if y % 400 == 0 { 1int } else { 0int });
    assert(y % 400 == 0 ==> y % 100 == 0);
    assert(y % 100 == 0 ==> y % 4 == 0);
}

proof fn lemma_epoch()
    ensures
        day_number(1970, 1, 1) == 0,
{
    lemma_months(1970);
}

/// The day after a date has the next number.
pub proof fn lemma_next_date(t: (int, int, int))
    requires
        valid_date(t.0, t.1, t.2),
    ensures
        valid_date(next_date(t).0, next_date(t).1, next_date(t).2),
        day_number(next_date(t).0, next_date(t).1, next_date(t).2) == day_number(t.0, t.1, t.2)
            + 1,
{
    lemma_months(t.0);
    lemma_months(t.0 + 1);
    lemma_year_days(t.0);
}

proof fn lemma_later_year(a: int, b: int)
    requires
        a < b,
    ensures
        days_before_year(a + 1) <= days_before_year(b),
    decreases b - a,
{
    if a + 1 < b {
        lemma_later_year(a, b - 1);
        lemma_year_days(b - 1);
    }
}

/// Two dates with one number are one date.
pub proof fn lemma_day_number_unique(a: (int, int, int), b: (int, int, int))
    requires
        valid_date(a.0, a.1, a.2),
        valid_date(b.0, b.1, b.2),
        day_number(a.0, a.1, a.2) == day_number(b.0, b.1, b.2),
    ensures
        a == b,
{
    lemma_months(a.0);
    lemma_months(b.0);
    lemma_year_days(a.0);
    lemma_year_days(b.0);
    if a.0 < b.0 {
        lemma_later_year(a.0, b.0);
    } else if b.0 < a.0 {
        lemma_later_year(b.0, a.0);
    }
}

/// Rounds a quotient down.
fn floor_div(n: i64, d: i64) -> (r: i64)
    requires
        d > 1,
    ensures
        r == n as int / d as int,
{
    if n >= 0 {
        n / d
    } else {
        let m: i64 = -(n + 1);
        let q: i64 = m / d;
        proof {
            let k = m as int % d as int;
            assert(m == q * d + k) by {
                vstd::arithmetic::div_mod::lemma_fundamental_div_mod(m as int, d as int);
                vstd::arithmetic::mul::lemma_mul_is_commutative(d as int, q as int);
            }
            vstd::arithmetic::div_mod::lemma_div_pos_is_pos(m as int, d as int);
            vstd::arithmetic::div_mod::lemma_div_decreases(m as int + 1, d as int);
            assert((-q - 1) * d == -(q * d) - d) by (nonlinear_arith);
            assert(0 <= k < d);
            lemma_fundamental_div_mod_converse(n as int, d as int, (-q - 1) as int, d - 1 - k);
            assert(q <= m) by {
                vstd::arithmetic::div_mod::lemma_div_is_ordered_by_denominator(m as int, 1, d as int);
            }
        }
        -q - 1
    }
}

/// The year of an era that a day of the era falls in, and what that year starts with.
proof fn lemma_year_of_era(doe: int, yoe: int)
    requires
        0 <= doe < 146_097,
        yoe == (doe - doe / 1_460 + doe / 36_524 - doe / 146_096) / 365,
    ensures
        0 <= yoe < 400,
        365 * yoe + yoe / 4 - yoe / 100 <= doe,
        doe < 365 * (yoe + 1) + (yoe + 1) / 4 - (yoe + 1) / 100 + (yoe + 1) / 400,
{
}

/// Proleptic Gregorian year, month and day for a day count since the first of January 1970.
pub fn civil_from_days(days: i64) -> (r: (i64, u32, u32))
    requires
        days <= i64::MAX - 719_468,
    ensures
        valid_date(r.0 as int, r.1 as int, r.2 as int),
        day_number(r.0 as int, r.1 as int, r.2 as int) == days,
{
    let z: i64 = days + 719_468;
    let era: i64 = floor_div(z, 146_097);
    let doe: i64 = z - era * 146_097;
    assert(0 <= doe < 146_097);
    let yoe: i64 = (doe - doe / 1_460 + doe / 36_524 - doe / 146_096) / 365;
    proof {
        lemma_year_of_era(doe as int, yoe as int);
    }
    let doy: i64 = doe - (365 * yoe + yoe / 4 - yoe / 100);
    let mp: i64 = (5 * doy + 2) / 153;
    let d: i64 = doy - (153 * mp + 2) / 5 + 1;
    let m: i64 = if mp < 10 {
        mp + 3
    } else {
        mp - 9
    };
    let y: i64 = yoe + era * 400 + if m <= 2 {
        1
    } else {
        0
    };
    proof {
        lemma_civil(z as int, era as int, doe as int, yoe as int, doy as int, mp as int);
    }
    (y, m as u32, d as u32)
}

/// The calendar date of a day counted from March-based years.
proof fn lemma_civil(z: int, era: int, doe: int, yoe: int, doy: int, mp: int)
    requires
        z == era * 146_097 + doe,
        0 <= yoe < 400,
        0 <= doe < 146_097,
        doy == doe - (365 * yoe + yoe / 4 - yoe / 100),
        doy >= 0,
        doe < 365 * (yoe + 1) + (yoe + 1) / 4 - (yoe + 1) / 100 + (yoe + 1) / 400,
        mp == (5 * doy + 2) / 153,
    ensures
        ({
            let m = if mp < 10 {
                mp + 3
            } else {
                mp - 9
            };
            let d = doy - (153 * mp + 2) / 5 + 1;
            let y = yoe + era * 400 + if m <= 2 {
                1int
            } else {
                0int
            };
            valid_date(y, m, d) && day_number(y, m, d) == z - 719_468
        }),
{
    let m = if mp < 10 {
        mp + 3
    } else {
        mp - 9
    };
    let d = doy - (153 * mp + 2) / 5 + 1;
    let march = yoe + era * 400;
    let y = march + if m <= 2 {
        1int
    } else {
        0int
    };
    lemma_months(y);
    lemma_year_days(march);
    assert(march / 4 == era * 100 + yoe / 4);
    assert(march / 100 == era * 4 + yoe / 100);
    assert(march / 400 == era);
    assert((march + 1) / 4 == era * 100 + (yoe + 1) / 4);
    assert((march + 1) / 100 == era * 4 + (yoe + 1) / 100);
    assert((march + 1) / 400 == era + (yoe + 1) / 400);
    assert(doy <= 365);
    assert(doy == 365 ==> is_leap(march + 1)) by {
        lemma_year_days(march + 1);
    }
    assert(0 <= mp <= 11);
}

/// The second of the day as hours, minutes and seconds, six digits.
pub open spec fn clock_text(second: nat) -> Seq<char> {
    fixed_text(second / 3600, 2) + fixed_text((second % 3600) / 60, 2) + fixed_text(second % 60, 2)
}

/// A date as eight digits.
pub open spec fn date_text(y: int, m: int, d: int) -> Seq<char> {
    fixed_text(y as nat, 4) + fixed_text(m as nat, 2) + fixed_text(d as nat, 2)
}

/// The date of a day number.
pub open spec fn civil(days: int) -> (int, int, int) {
    choose|t: (int, int, int)|
        valid_date(t.0, t.1, t.2) && #[trigger] day_number(t.0, t.1, t.2) == days
}

/// `YYYYMMDD-HHMMSS` in UTC for nanoseconds since the Unix epoch.
pub open spec fn utc_text(nanos: int) -> Seq<char> {
    let secs = nanos / NANOS_PER_SECOND as int;
    let (y, m, d) = civil(secs / 86_400);
    date_text(y, m, d) + "-"@ + clock_text((secs % 86_400) as nat)
}

/// Formats nanoseconds since the Unix epoch as `YYYYMMDD-HHMMSS` in UTC.
pub fn format_utc_compact(nanos: i64) -> (r: String)
    ensures
        r@ == utc_text(nanos as int),
{
    let secs: i64 = floor_div(nanos, NANOS_PER_SECOND);
    assert(-9_223_372_037 <= secs <= 9_223_372_036);
    let days: i64 = floor_div(secs, 86_400);
    assert(-106_752 <= days <= 106_752);
    let sod: i64 = secs - days * 86_400;
    let (y, m, d) = civil_from_days(days);
    proof {
        assert(sod == secs as int % 86_400);
        let c = civil(days as int);
        let t = (y as int, m as int, d as int);
        assert(valid_date(t.0, t.1, t.2) && day_number(t.0, t.1, t.2) == days);
        lemma_day_number_unique(c, t);
        lemma_year_range(t);
    }
    let mut out = String::new();
    push_fixed(&mut out, y as u64, 4);
    push_fixed(&mut out, m as u64, 2);
    push_fixed(&mut out, d as u64, 2);
    out.append("-");
    push_fixed(&mut out, (sod / 3600) as u64, 2);
    push_fixed(&mut out, ((sod % 3600) / 60) as u64, 2);
    push_fixed(&mut out, (sod % 60) as u64, 2);
    assert(out@ =~= utc_text(nanos as int));
    out
}

/// Nanosecond timestamps fall in years with four digits.
proof fn lemma_year_range(t: (int, int, int))
    requires
        valid_date(t.0, t.1, t.2),
        -106_752 <= day_number(t.0, t.1, t.2) <= 106_752,
    ensures
        1000 <= t.0 <= 9999,
{
    lemma_months(t.0);
    assert(days_before_year(1001) < -106_752);
    assert(days_before_year(9999) > 106_752);
    if t.0 < 1000 {
        lemma_year_days(t.0);
        lemma_later_year(t.0, 1001);
    }
    if t.0 > 9999 {
        lemma_later_year(9998, t.0);
    }
}

/// Every day has a date.
pub proof fn lemma_civil_valid(days: int)
    ensures
        valid_date(civil(days).0, civil(days).1, civil(days).2),
        day_number(civil(days).0, civil(days).1, civil(days).2) == days,
{
    let z = days + 719_468;
    let era = z / 146_097;
    let doe = z - era * 146_097;
    let yoe = (doe - doe / 1_460 + doe / 36_524 - doe / 146_096) / 365;
    lemma_year_of_era(doe, yoe);
    let doy = doe - (365 * yoe + yoe / 4 - yoe / 100);
    let mp = (5 * doy + 2) / 153;
    lemma_civil(z, era, doe, yoe, doy, mp);
    let m = if mp < 10 {
        mp + 3
    } else {
        mp - 9
    };
    let d = doy - (153 * mp + 2) / 5 + 1;
    let y = yoe + era * 400 + if m <= 2 {
        1int
    } else {
        0int
    };
    let t = (y, m, d);
    assert(valid_date(t.0, t.1, t.2) && day_number(t.0, t.1, t.2) == days);
}

/// The first of 1970 is day zero, and each day's date follows the date of the day before.
pub proof fn law_civil(days: int)
    ensures
        civil(0) == (1970int, 1int, 1int),
        civil(days + 1) == next_date(civil(days)),
{
    lemma_epoch();
    lemma_civil_valid(0);
    lemma_day_number_unique(civil(0), (1970, 1, 1));
    lemma_civil_valid(days);
    lemma_civil_valid(days + 1);
    lemma_next_date(civil(days));
    lemma_day_number_unique(civil(days + 1), next_date(civil(days)));
}

} // verus!
