//! UTC calendar arithmetic (Howard Hinnant's `civil_from_days`) and the
//! timestamp strings used for backups, exports and lock files.

use vstd::prelude::*;
use crate::order::lex_lt;

verus! {

// ── The Gregorian calendar ──────────────────────────────────────────────────

/// Leap years: divisible by 4, except centuries not divisible by 400.
pub open spec fn is_leap_year(y: int) -> bool {
    y % 4 == 0 && (y % 100 != 0 || y % 400 == 0)
}

/// Days in month `m` (1 to 12) of year `y`.
pub open spec fn days_in_month(y: int, m: int) -> int {
    if m == 2 {
        if is_leap_year(y) { 29 } else { 28 }
    } else if m == 4 || m == 6 || m == 9 || m == 11 {
        30
    } else {
        31
    }
}

/// Days of year `y` before the first of month `m`.
pub open spec fn days_before_month(y: int, m: int) -> int {
    let l: int = if is_leap_year(y) { 1 } else { 0 };
    if m <= 1 { 0 }
    else if m == 2 { 31 }
    else if m == 3 { 59 + l }
    else if m == 4 { 90 + l }
    else if m == 5 { 120 + l }
    else if m == 6 { 151 + l }
    else if m == 7 { 181 + l }
    else if m == 8 { 212 + l }
    else if m == 9 { 243 + l }
    else if m == 10 { 273 + l }
    else if m == 11 { 304 + l }
    else { 334 + l }
}

/// Number of leap years among years 1 to `n`.
pub open spec fn leap_years_through(n: int) -> int {
    n / 4 - n / 100 + n / 400
}

/// Days from 1970-01-01 to `y-m-d` (negative before it).
pub open spec fn days_from_civil(y: int, m: int, d: int) -> int {
    365 * (y - 1970) + leap_years_through(y - 1) - leap_years_through(1969) + days_before_month(y, m) + d - 1
}

/// A real calendar date.
pub open spec fn valid_date(y: int, m: int, d: int) -> bool {
    1 <= m <= 12 && 1 <= d <= days_in_month(y, m)
}

// ── Proof of the algorithm ──────────────────────────────────────────────────

/// Within one 400-year era counted from a 1st of March, the year-of-era
/// formula stays within the era, leaves at most 365 days into the year, and
/// leaves 365 (a 29th of February) only when the next year is a leap year.
proof fn lemma_year_of_era(doe: u32, yoe: u32)
    requires
        doe <= 146096,
        yoe == ((doe - doe / 1460 + doe / 36524 - doe / 146096) / 365) as u32,
    ensures
        yoe <= 399,
        365 * yoe + yoe / 4 - yoe / 100 <= doe,
        doe - (365 * yoe + yoe / 4 - yoe / 100) <= 365,
        doe - (365 * yoe + yoe / 4 - yoe / 100) == 365 ==> is_leap_year(yoe + 1),
{
    assert(yoe <= 399 && 365 * yoe + yoe / 4 - yoe / 100 <= doe + 0 && doe - (365 * yoe + yoe / 4
        - yoe / 100) <= 365 && (doe - (365 * yoe + yoe / 4 - yoe / 100) == 365 ==> ((yoe + 1) % 4
        == 0 && ((yoe + 1) % 100 != 0 || (yoe + 1) % 400 == 0)))) by (bit_vector)
        requires
            doe <= 146096,
            yoe == ((doe - doe / 1460 + doe / 36524 - doe / 146096) / 365) as u32,
    ;
}

/// Days from the 1st of March to the 1st of the month `mp` months later.
spec fn days_since_march(mp: int) -> int {
    (153 * mp + 2) / 5
}

/// Month and day from the day of a March-based year: the month offset is
/// 0 to 11, the day is within that month (a 29th of February only on day
/// 365), and counting back gives the day of the year again.
proof fn lemma_day_of_year(doy: int)
    requires
        0 <= doy <= 365,
    ensures
        ({
            let mp = (5 * doy + 2) / 153;
            let d = doy - days_since_march(mp) + 1;
            &&& 0 <= mp <= 11
            &&& 1 <= d
            &&& mp == 0 || mp == 2 || mp == 4 || mp == 5 || mp == 7 || mp == 9 || mp == 10 ==> d <= 31
            &&& mp == 1 || mp == 3 || mp == 6 || mp == 8 ==> d <= 30
            &&& mp == 11 ==> d <= 29 && (d == 29 ==> doy == 365)
        }),
{
    let mp = (5 * doy + 2) / 153;
    if doy <= 30 { assert(mp == 0); }
    else if doy <= 60 { assert(mp == 1); }
    else if doy <= 91 { assert(mp == 2); }
    else if doy <= 121 { assert(mp == 3); }
    else if doy <= 152 { assert(mp == 4); }
    else if doy <= 183 { assert(mp == 5); }
    else if doy <= 213 { assert(mp == 6); }
    else if doy <= 244 { assert(mp == 7); }
    else if doy <= 274 { assert(mp == 8); }
    else if doy <= 305 { assert(mp == 9); }
    else if doy <= 336 { assert(mp == 10); }
    else { assert(mp == 11); }
}

/// A year adds one to the leap-year count exactly when it is a leap year.
proof fn lemma_leap_count_step(n: int)
    ensures
        leap_years_through(n) == leap_years_through(n - 1) + if is_leap_year(n) { 1int } else { 0int },
{
}

/// Leap-year counting repeats every 400 years with 97 leap years.
proof fn lemma_leap_count_period(n: int, k: int)
    ensures
        leap_years_through(n + 400 * k) == leap_years_through(n) + 97 * k,
{
    assert((n + 400 * k) / 4 == n / 4 + 100 * k);
    assert((n + 400 * k) / 100 == n / 100 + 4 * k);
    assert((n + 400 * k) / 400 == n / 400 + k);
}

/// Putting the steps together: the date the algorithm assembles from the
/// day of era is a real date that lies `zs - 719468` days after 1970-01-01.
#[verifier::spinoff_prover]
#[verifier::rlimit(40)]
proof fn lemma_assemble_date(zs: int, era: int, doe: int, yoe: int, doy: int, mp: int, d: int, m: int, year: int)
    requires
        doe == zs - era * 146097,
        0 <= doe <= 146096,
        0 <= yoe <= 399,
        doy == doe - (365 * yoe + yoe / 4 - yoe / 100),
        0 <= doy <= 365,
        doy == 365 ==> is_leap_year(yoe + 1),
        mp == (5 * doy + 2) / 153,
        d == doy - days_since_march(mp) + 1,
        m == if mp < 10 { mp + 3 } else { mp - 9 },
        year == (if m <= 2 { yoe + 1 } else { yoe }) + 400 * era,
    ensures
        valid_date(year, m, d),
        days_from_civil(year, m, d) == zs - 719468,
{
    lemma_day_of_year(doy);
    let u: int = if m <= 2 { yoe + 1 } else { yoe };
    assert(is_leap_year(year) == is_leap_year(u));
    lemma_leap_count_period(u - 1, era);
    lemma_leap_count_step(yoe);
    assert(leap_years_through(yoe) == yoe / 4 - yoe / 100);
    assert(leap_years_through(1969) == 477);
    if m <= 2 {
        assert(u - 1 == yoe);
        assert(days_before_month(year, m) == days_since_march(mp) - 306);
    } else {
        lemma_leap_count_period(yoe - 1, 1);
        assert(days_before_month(year, m) == days_since_march(mp) + 59 + if is_leap_year(yoe) { 1int } else { 0int });
    }
}

/// (year, month, day) of the day `z` days after 1970-01-01.
pub fn civil_from_days(z: i64) -> (r: (i64, u32, u32))
    requires
        i64::MIN + 1000000 <= z <= i64::MAX - 1000000,
    ensures
        valid_date(r.0 as int, r.1 as int, r.2 as int),
        days_from_civil(r.0 as int, r.1 as int, r.2 as int) == z,
{
    let z = z + 719468;
    let era = if z >= 0 { z } else { z - 146096 } / 146097;
    proof {
        assert(era * 146097 <= z < era * 146097 + 146097);
    }
    let doe = z - era * 146097;
    let yoe = (doe - doe / 1460 + doe / 36524 - doe / 146096) / 365;
    proof {
        lemma_year_of_era(doe as u32, yoe as u32);
    }
    let y = yoe + era * 400;
    let doy = doe - (365 * yoe + yoe / 4 - yoe / 100);
    let mp = (5 * doy + 2) / 153;
    proof {
        lemma_day_of_year(doy as int);
    }
    let d = (doy - (153 * mp + 2) / 5 + 1) as u32;
    let m = (if mp < 10 { mp + 3 } else { mp - 9 }) as u32;
    let year = if m <= 2 { y + 1 } else { y };
    proof {
        lemma_assemble_date(z as int, era as int, doe as int, yoe as int, doy as int, mp as int, d as int, m as int, year as int);
    }
    (year, m, d)
}

/// The leap-year count never decreases.
proof fn lemma_leap_count_monotone(a: int, b: int)
    requires
        a <= b,
    ensures
        leap_years_through(a) <= leap_years_through(b),
    decreases b - a,
{
    if a < b {
        lemma_leap_count_step(b);
        lemma_leap_count_monotone(a, b - 1);
    }
}

/// Dates before 1970 lie before day 0.
proof fn lemma_before_epoch(y: int, m: int, d: int)
    requires
        valid_date(y, m, d),
        y < 1970,
    ensures
        days_from_civil(y, m, d) < 0,
{
    lemma_leap_count_monotone(y - 1, 1968);
    assert(leap_years_through(1968) == 477);
}

/// Within a year, a later month starts after every day of an earlier one,
/// and the last day of the year is day 364 or 365.
proof fn lemma_month_days(y: int, m1: int, m2: int)
    requires
        1 <= m1 < m2 <= 12,
    ensures
        days_before_month(y, m1) + days_in_month(y, m1) <= days_before_month(y, m2),
{
}

/// A valid date's day of the year is at most 364, or 365 in a leap year.
proof fn lemma_day_of_year_bound(y: int, m: int, d: int)
    requires
        valid_date(y, m, d),
    ensures
        0 <= days_before_month(y, m) + d - 1 <= 364 + if is_leap_year(y) { 1int } else { 0int },
{
    if m < 12 {
        lemma_month_days(y, m, 12);
    }
}

/// Later valid dates lie more days after 1970-01-01: dates in the order of
/// (year, month, day) are in the order of their day numbers.
proof fn lemma_date_order(y1: int, m1: int, d1: int, y2: int, m2: int, d2: int)
    requires
        valid_date(y1, m1, d1),
        valid_date(y2, m2, d2),
        y1 < y2 || (y1 == y2 && m1 < m2) || (y1 == y2 && m1 == m2 && d1 < d2),
    ensures
        days_from_civil(y1, m1, d1) < days_from_civil(y2, m2, d2),
{
    if y1 < y2 {
        lemma_day_of_year_bound(y1, m1, d1);
        lemma_day_of_year_bound(y2, m2, d2);
        lemma_leap_count_step(y1);
        lemma_leap_count_monotone(y1, y2 - 1);
        assert(days_from_civil(y1, m1, d1) <= days_from_civil(y1, 1, 1) + 364 + if is_leap_year(y1) { 1int } else { 0int });
        assert(days_from_civil(y1 + 1, 1, 1) == days_from_civil(y1, 1, 1) + 365 + if is_leap_year(y1) { 1int } else { 0int });
        assert(days_from_civil(y2, 1, 1) >= days_from_civil(y1 + 1, 1, 1));
        assert(days_from_civil(y2, m2, d2) >= days_from_civil(y2, 1, 1));
    } else if m1 < m2 {
        lemma_month_days(y1, m1, m2);
    }
}

// ── Decimal text ────────────────────────────────────────────────────────────

/// The character of a decimal digit.
pub open spec fn digit_char(n: int) -> char {
    if n == 0 { '0' } else if n == 1 { '1' } else if n == 2 { '2' } else if n == 3 { '3' }
    else if n == 4 { '4' } else if n == 5 { '5' } else if n == 6 { '6' } else if n == 7 { '7' }
    else if n == 8 { '8' } else { '9' }
}

/// The decimal digits of `n`, most significant first, without leading
/// zeros (a single `0` for zero).
pub open spec fn decimal(n: nat) -> Seq<char>
    decreases n,
{
    if n < 10 {
        seq![digit_char(n as int)]
    } else {
        decimal(n / 10).push(digit_char((n % 10) as int))
    }
}

/// `text` preceded by zeros up to `width` characters (as `{:0width}`).
pub open spec fn zero_padded(text: Seq<char>, width: nat) -> Seq<char> {
    if text.len() < width {
        Seq::new((width - text.len()) as nat, |i: int| '0') + text
    } else {
        text
    }
}

/// The digit character of `n` (0 to 9).
fn digit(n: u64) -> (c: char)
    requires
        n < 10,
    ensures
        c == digit_char(n as int),
{
    match n {
        0 => '0',
        1 => '1',
        2 => '2',
        3 => '3',
        4 => '4',
        5 => '5',
        6 => '6',
        7 => '7',
        8 => '8',
        _ => '9',
    }
}

/// The decimal digits of `n`.
pub fn decimal_chars(n: u128) -> (v: Vec<char>)
    ensures
        v@ == decimal(n as nat),
    decreases n,
{
    if n < 10 {
        let mut v: Vec<char> = Vec::new();
        v.push(digit(n as u64));
        v
    } else {
        let mut v = decimal_chars(n / 10);
        v.push(digit((n % 10) as u64));
        v
    }
}

/// The length of a decimal text is at least one.
proof fn lemma_decimal_nonempty(n: nat)
    ensures
        decimal(n).len() >= 1,
    decreases n,
{
    if n >= 10 {
        lemma_decimal_nonempty(n / 10);
    }
}

/// Appends `n` in decimal, zero-padded to `width` characters.
pub fn push_padded(out: &mut Vec<char>, n: u64, width: usize)
    ensures
        final(out)@ == old(out)@ + zero_padded(decimal(n as nat), width as nat),
{
    let digits = decimal_chars(n as u128);
    let mut k: usize = digits.len();
    while k < width
        invariant
            digits.len() <= k <= width || (k == digits.len() && k >= width),
            out@ == old(out)@ + Seq::new((k - digits@.len()) as nat, |i: int| '0'),
        decreases width - k,
    {
        out.push('0');
        k = k + 1;
        assert(out@ =~= old(out)@ + Seq::new((k - digits@.len()) as nat, |i: int| '0'));
    }
    let mut j: usize = 0;
    let ghost pad = out@;
    while j < digits.len()
        invariant
            j <= digits@.len(),
            out@ == pad + digits@.subrange(0, j as int),
        decreases digits@.len() - j,
    {
        out.push(digits[j]);
        j = j + 1;
    }
    assert(digits@.subrange(0, digits@.len() as int) =~= digits@);
    assert(out@ =~= old(out)@ + zero_padded(decimal(n as nat), width as nat));
}

// ── Timestamps ──────────────────────────────────────────────────────────────

/// The UTC fields of `secs` seconds after the epoch: a real date that lies
/// `secs / 86400` days after 1970-01-01, and the time of day.
pub open spec fn utc_fields(secs: nat, y: int, mo: int, d: int, h: int, mi: int, s: int) -> bool {
    &&& valid_date(y, mo, d)
    &&& days_from_civil(y, mo, d) == secs / 86400
    &&& h == (secs % 86400) / 3600
    &&& mi == (secs % 3600) / 60
    &&& s == secs % 60
}

/// Splits unix seconds into (year, month, day, hour, minute, second) UTC.
pub fn parts(secs: u64) -> (r: (i64, u32, u32, u32, u32, u32))
    ensures
        utc_fields(secs as nat, r.0 as int, r.1 as int, r.2 as int, r.3 as int, r.4 as int, r.5 as int),
        r.0 >= 1970,
{
    let days = (secs / 86400) as i64;
    let rem = secs % 86400;
    let (y, m, d) = civil_from_days(days);
    proof {
        if y < 1970 {
            lemma_before_epoch(y as int, m as int, d as int);
        }
        assert((secs % 86400) % 3600 == secs % 3600) by (nonlinear_arith);
        assert((secs % 86400) % 60 == secs % 60) by (nonlinear_arith);
    }
    (y, m, d, (rem / 3600) as u32, (rem % 3600 / 60) as u32, (rem % 60) as u32)
}

/// `YYYY-MM-DDTHH:MM:SSZ` for the given fields.
pub open spec fn iso_text(y: nat, mo: nat, d: nat, h: nat, mi: nat, s: nat) -> Seq<char> {
    zero_padded(decimal(y), 4) + seq!['-'] + zero_padded(decimal(mo), 2) + seq!['-']
        + zero_padded(decimal(d), 2) + seq!['T'] + zero_padded(decimal(h), 2) + seq![':']
        + zero_padded(decimal(mi), 2) + seq![':'] + zero_padded(decimal(s), 2) + seq!['Z']
}

/// `YYYY-MM-DD-HH-MM-SS` for the given fields.
pub open spec fn compact_text(y: nat, mo: nat, d: nat, h: nat, mi: nat, s: nat) -> Seq<char> {
    zero_padded(decimal(y), 4) + seq!['-'] + zero_padded(decimal(mo), 2) + seq!['-']
        + zero_padded(decimal(d), 2) + seq!['-'] + zero_padded(decimal(h), 2) + seq!['-']
        + zero_padded(decimal(mi), 2) + seq!['-'] + zero_padded(decimal(s), 2)
}

/// Whether `text` is the ISO 8601 (UTC) timestamp of `secs`.
pub open spec fn is_iso_of(secs: nat, text: Seq<char>) -> bool {
    exists|y: nat, mo: nat, d: nat, h: nat, mi: nat, s: nat|
        utc_fields(secs, y as int, mo as int, d as int, h as int, mi as int, s as int)
            && text == #[trigger] iso_text(y, mo, d, h, mi, s)
}

/// Whether `text` is the compact timestamp of `secs`.
pub open spec fn is_compact_of(secs: nat, text: Seq<char>) -> bool {
    exists|y: nat, mo: nat, d: nat, h: nat, mi: nat, s: nat|
        utc_fields(secs, y as int, mo as int, d as int, h as int, mi as int, s as int)
            && text == #[trigger] compact_text(y, mo, d, h, mi, s)
}

/// Lays out the six fields with the given separators.
fn layout(f: (i64, u32, u32, u32, u32, u32), sep: [char; 5], end: Option<char>) -> (v: Vec<char>)
    requires
        f.0 >= 0,
    ensures
        v@ == zero_padded(decimal(f.0 as nat), 4) + seq![sep[0]] + zero_padded(decimal(f.1 as nat), 2)
            + seq![sep[1]] + zero_padded(decimal(f.2 as nat), 2) + seq![sep[2]] + zero_padded(
            decimal(f.3 as nat),
            2,
        ) + seq![sep[3]] + zero_padded(decimal(f.4 as nat), 2) + seq![sep[4]] + zero_padded(
            decimal(f.5 as nat),
            2,
        ) + match end {
            Some(c) => seq![c],
            None => Seq::<char>::empty(),
        },
{
    let mut v: Vec<char> = Vec::new();
    push_padded(&mut v, f.0 as u64, 4);
    v.push(sep[0]);
    push_padded(&mut v, f.1 as u64, 2);
    v.push(sep[1]);
    push_padded(&mut v, f.2 as u64, 2);
    v.push(sep[2]);
    push_padded(&mut v, f.3 as u64, 2);
    v.push(sep[3]);
    push_padded(&mut v, f.4 as u64, 2);
    v.push(sep[4]);
    push_padded(&mut v, f.5 as u64, 2);
    match end {
        Some(c) => v.push(c),
        None => {},
    }
    assert(v@ =~= zero_padded(decimal(f.0 as nat), 4) + seq![sep[0]] + zero_padded(decimal(f.1 as nat), 2)
            + seq![sep[1]] + zero_padded(decimal(f.2 as nat), 2) + seq![sep[2]] + zero_padded(
            decimal(f.3 as nat),
            2,
        ) + seq![sep[3]] + zero_padded(decimal(f.4 as nat), 2) + seq![sep[4]] + zero_padded(
            decimal(f.5 as nat),
            2,
        ) + match end {
            Some(c) => seq![c],
            None => Seq::<char>::empty(),
        });
    v
}

/// ISO 8601 (UTC) text of any unix seconds: `YYYY-MM-DDTHH:MM:SSZ`.
pub fn iso_from_secs(secs: u64) -> (s: String)
    ensures
        is_iso_of(secs as nat, s@),
{
    let f = parts(secs);
    let v = layout(f, ['-', '-', 'T', ':', ':'], Some('Z'));
    let s = crate::text::string_from(v.as_slice());
    proof {
        let w = iso_text(f.0 as nat, f.1 as nat, f.2 as nat, f.3 as nat, f.4 as nat, f.5 as nat);
        assert(s@ =~= w);
    }
    s
}

/// Compact text of any unix seconds: `YYYY-MM-DD-HH-MM-SS` (UTC).
pub fn compact_from_secs(secs: u64) -> (s: String)
    ensures
        is_compact_of(secs as nat, s@),
{
    let f = parts(secs);
    let v = layout(f, ['-', '-', '-', '-', '-'], None);
    let s = crate::text::string_from(v.as_slice());
    proof {
        let w = compact_text(f.0 as nat, f.1 as nat, f.2 as nat, f.3 as nat, f.4 as nat, f.5 as nat);
        assert(s@ =~= w);
    }
    s
}

// ── The clock ───────────────────────────────────────────────────────────────

#[verifier::external_type_specification]
#[verifier::external_body]
pub struct ExSystemTime(std::time::SystemTime);

#[verifier::external_type_specification]
#[verifier::external_body]
pub struct ExSystemTimeError(std::time::SystemTimeError);

/// Calls `std::time::SystemTime::now`. Nothing is claimed of the reading.
#[verifier::external_body]
fn system_now() -> (t: std::time::SystemTime) {
    std::time::SystemTime::now()
}

/// Calls `SystemTime::duration_since(UNIX_EPOCH)`; it fails for a clock set
/// before 1970. Nothing is claimed of the duration.
#[verifier::external_body]
fn since_epoch(t: &std::time::SystemTime) -> (r: Result<std::time::Duration, std::time::SystemTimeError>) {
    t.duration_since(std::time::UNIX_EPOCH)
}

/// Calls `Duration::as_secs`. Nothing is claimed of the value.
#[verifier::external_body]
fn whole_secs(d: &std::time::Duration) -> (s: u64) {
    d.as_secs()
}

/// Calls `Duration::as_millis`. Nothing is claimed of the value.
#[verifier::external_body]
fn whole_millis(d: &std::time::Duration) -> (ms: u128) {
    d.as_millis()
}

/// Seconds since the epoch (0 when the clock is before 1970).
pub fn now_secs() -> (s: u64) {
    match since_epoch(&system_now()) {
        Ok(d) => whole_secs(&d),
        Err(_) => 0,
    }
}

/// Milliseconds since the epoch (0 when the clock is before 1970).
pub fn now_millis() -> (ms: u128) {
    match since_epoch(&system_now()) {
        Ok(d) => whole_millis(&d),
        Err(_) => 0,
    }
}

/// Milliseconds since the epoch as a `u64` (the low 64 bits; 0 when the
/// clock is before 1970).
pub fn now_ms() -> (ms: u64) {
    #[verifier::truncate]
    (now_millis() as u64)
}

/// Compact timestamp for file names: `YYYY-MM-DD-HH-MM-SS` (UTC), of some
/// reading of the clock.
pub fn now_compact() -> (s: String)
    ensures
        exists|t: u64| is_compact_of(t as nat, s@),
{
    compact_from_secs(now_secs())
}

/// ISO 8601 timestamp (UTC) `YYYY-MM-DDTHH:MM:SSZ` of some reading of the
/// clock.
pub fn now_iso() -> (s: String)
    ensures
        exists|t: u64| is_iso_of(t as nat, s@),
{
    iso_from_secs(now_secs())
}


// ── Time stamps sort in time order ──────────────────────────────────────────

/// Two digits, zero-padded.
proof fn lemma_pad2(n: int)
    requires
        0 <= n < 100,
    ensures
        zero_padded(decimal(n as nat), 2) == seq![digit_char(n / 10), digit_char(n % 10)],
{
    reveal_with_fuel(decimal, 3);
    if n < 10 {
        assert(zero_padded(decimal(n as nat), 2) =~= seq![digit_char(n / 10), digit_char(n % 10)]);
    } else {
        assert(decimal((n / 10) as nat) == seq![digit_char(n / 10)]);
        assert(zero_padded(decimal(n as nat), 2) =~= seq![digit_char(n / 10), digit_char(n % 10)]);
    }
}

/// Four digits, zero-padded.
proof fn lemma_pad4(n: int)
    requires
        0 <= n < 10000,
    ensures
        zero_padded(decimal(n as nat), 4) == seq![digit_char(n / 1000), digit_char(n / 100 % 10), digit_char(n / 10 % 10), digit_char(n % 10)],
{
    reveal_with_fuel(decimal, 5);
    let q = seq![digit_char(n / 1000), digit_char(n / 100 % 10), digit_char(n / 10 % 10), digit_char(n % 10)];
    if n < 10 {
        assert(zero_padded(decimal(n as nat), 4) =~= q);
    } else if n < 100 {
        assert(decimal((n / 10) as nat) == seq![digit_char(n / 10)]);
        assert(zero_padded(decimal(n as nat), 4) =~= q);
    } else if n < 1000 {
        assert(decimal((n / 100) as nat) == seq![digit_char(n / 100)]);
        assert((n / 10) / 10 == n / 100);
        assert(decimal((n / 10) as nat) == seq![digit_char(n / 100), digit_char(n / 10 % 10)]);
        assert(zero_padded(decimal(n as nat), 4) =~= q);
    } else {
        assert(decimal((n / 1000) as nat) == seq![digit_char(n / 1000)]);
        assert((n / 100) / 10 == n / 1000);
        assert((n / 10) / 10 == n / 100);
        assert(decimal((n / 100) as nat) == seq![digit_char(n / 1000), digit_char(n / 100 % 10)]);
        assert(decimal((n / 10) as nat) == seq![digit_char(n / 1000), digit_char(n / 100 % 10), digit_char(n / 10 % 10)]);
        assert(zero_padded(decimal(n as nat), 4) =~= q);
    }
}

/// The digit characters are in the order of the digits.
proof fn lemma_digit_char_order(a: int, b: int)
    requires
        0 <= a < b <= 9,
    ensures
        digit_char(a) < digit_char(b),
{
}

/// A longer common start keeps the order of what follows, and a smaller
/// start of equal length decides it.
proof fn lemma_lex_prefix(p1: Seq<char>, p2: Seq<char>, r1: Seq<char>, r2: Seq<char>)
    requires
        p1.len() == p2.len(),
        lex_lt(p1, p2) || (p1 == p2 && lex_lt(r1, r2)),
    ensures
        lex_lt(p1 + r1, p2 + r2),
    decreases p1.len(),
{
    if p1.len() > 0 {
        assert((p1 + r1)[0] == p1[0]);
        assert((p2 + r2)[0] == p2[0]);
        if p1[0] == p2[0] {
            assert((p1 + r1).drop_first() =~= p1.drop_first() + r1);
            assert((p2 + r2).drop_first() =~= p2.drop_first() + r2);
            lemma_lex_prefix(p1.drop_first(), p2.drop_first(), r1, r2);
        }
    } else {
        assert(p1 + r1 =~= r1);
        assert(p2 + r2 =~= r2);
    }
}

/// Two-digit zero-padded numbers sort in numeric order.
proof fn lemma_pad_order2(n1: int, n2: int)
    requires
        0 <= n1 < n2 < 100,
    ensures
        lex_lt(zero_padded(decimal(n1 as nat), 2), zero_padded(decimal(n2 as nat), 2)),
{
    lemma_pad2(n1);
    lemma_pad2(n2);
    let a = zero_padded(decimal(n1 as nat), 2);
    let b = zero_padded(decimal(n2 as nat), 2);
    if n1 / 10 < n2 / 10 {
        lemma_digit_char_order(n1 / 10, n2 / 10);
        assert(a[0] != b[0]);
    } else {
        assert(n1 / 10 == n2 / 10);
        assert(n1 % 10 < n2 % 10);
        lemma_digit_char_order(n1 % 10, n2 % 10);
        assert(a.drop_first() =~= seq![digit_char(n1 % 10)]);
        assert(b.drop_first() =~= seq![digit_char(n2 % 10)]);
        assert(lex_lt(a.drop_first(), b.drop_first()));
    }
}

/// A four-digit zero-padded number is its hundreds, then the rest, each as
/// two digits.
proof fn lemma_pad4_split(n: int)
    requires
        0 <= n < 10000,
    ensures
        zero_padded(decimal(n as nat), 4) == zero_padded(decimal((n / 100) as nat), 2) + zero_padded(decimal((n % 100) as nat), 2),
{
    lemma_pad4(n);
    lemma_pad2(n / 100);
    lemma_pad2(n % 100);
    assert(n / 100 / 10 == n / 1000);
    assert(n % 100 / 10 == n / 10 % 10);
    assert(n % 100 % 10 == n % 10);
    assert(zero_padded(decimal(n as nat), 4) =~= zero_padded(decimal((n / 100) as nat), 2) + zero_padded(decimal((n % 100) as nat), 2));
}

/// Zero-padded numbers of one width sort in numeric order.
proof fn lemma_pad_order(n1: nat, n2: nat, w: nat)
    requires
        w == 2 || w == 4,
        n1 < n2,
        w == 2 ==> n2 < 100,
        w == 4 ==> n2 < 10000,
    ensures
        lex_lt(zero_padded(decimal(n1), w), zero_padded(decimal(n2), w)),
{
    if w == 2 {
        lemma_pad_order2(n1 as int, n2 as int);
    } else {
        let a = n1 as int;
        let b = n2 as int;
        lemma_pad4_split(a);
        lemma_pad4_split(b);
        lemma_pad2(a / 100);
        lemma_pad2(b / 100);
        if a / 100 < b / 100 {
            lemma_pad_order2(a / 100, b / 100);
        } else {
            assert(a / 100 == b / 100);
            lemma_pad_order2(a % 100, b % 100);
        }
        lemma_lex_prefix(
            zero_padded(decimal((a / 100) as nat), 2),
            zero_padded(decimal((b / 100) as nat), 2),
            zero_padded(decimal((a % 100) as nat), 2),
            zero_padded(decimal((b % 100) as nat), 2),
        );
    }
}

/// The length of a zero-padded number that fits its width.
proof fn lemma_pad_len(n: nat, w: nat)
    requires
        w == 2 ==> n < 100,
        w == 4 ==> n < 10000,
        w == 2 || w == 4,
    ensures
        zero_padded(decimal(n), w).len() == w,
{
    if w == 2 {
        lemma_pad2(n as int);
    } else {
        lemma_pad4(n as int);
    }
}

/// A field of width `w`, then `-`, then `rest`.
#[verifier::opaque]
spec fn field_then(n: nat, w: nat, rest: Seq<char>) -> Seq<char> {
    zero_padded(decimal(n), w) + (seq!['-'] + rest)
}

/// One step of comparing time stamps: field `a` against field `b` of
/// width `w`, then `-`, then what follows.
proof fn lemma_stamp_step(a: nat, b: nat, w: nat, r1: Seq<char>, r2: Seq<char>)
    requires
        w == 2 || w == 4,
        w == 2 ==> a < 100 && b < 100,
        w == 4 ==> a < 10000 && b < 10000,
        a < b || (a == b && lex_lt(r1, r2)),
    ensures
        lex_lt(field_then(a, w, r1), field_then(b, w, r2)),
{
    reveal(field_then);
    lemma_pad_len(a, w);
    lemma_pad_len(b, w);
    if a < b {
        lemma_pad_order(a, b, w);
    } else {
        lemma_lex_prefix(seq!['-'], seq!['-'], r1, r2);
    }
    lemma_lex_prefix(zero_padded(decimal(a), w), zero_padded(decimal(b), w), seq!['-'] + r1, seq!['-'] + r2);
}

/// Six pieces joined by `-`, regrouped from the right.
proof fn lemma_dash_chain(p0: Seq<char>, p1: Seq<char>, p2: Seq<char>, p3: Seq<char>, p4: Seq<char>, p5: Seq<char>)
    ensures
        p0 + seq!['-'] + p1 + seq!['-'] + p2 + seq!['-'] + p3 + seq!['-'] + p4 + seq!['-'] + p5
            == p0 + (seq!['-'] + (p1 + (seq!['-'] + (p2 + (seq!['-'] + (p3 + (seq!['-'] + (p4 + (seq!['-'] + p5))))))))),
{
    let sep = seq!['-'];
    let t4 = p4 + (sep + p5);
    let t3 = p3 + (sep + t4);
    let t2 = p2 + (sep + t3);
    let t1 = p1 + (sep + t2);
    let l1 = p0 + sep + p1;
    let l2 = l1 + sep + p2;
    let l3 = l2 + sep + p3;
    let l4 = l3 + sep + p4;
    assert(l1 + (sep + t2) =~= p0 + (sep + t1));
    assert(l2 + (sep + t3) =~= l1 + (sep + t2));
    assert(l3 + (sep + t4) =~= l2 + (sep + t3));
    assert(l4 + sep + p5 =~= l3 + (sep + t4));
}

/// The compact text as a chain of fields.
proof fn lemma_compact_shape(y: nat, mo: nat, d: nat, h: nat, mi: nat, s: nat)
    ensures
        compact_text(y, mo, d, h, mi, s) == field_then(y, 4, field_then(mo, 2, field_then(d, 2, field_then(h, 2,
            field_then(mi, 2, zero_padded(decimal(s), 2)))))),
{
    reveal(field_then);
    lemma_dash_chain(zero_padded(decimal(y), 4), zero_padded(decimal(mo), 2), zero_padded(decimal(d), 2),
        zero_padded(decimal(h), 2), zero_padded(decimal(mi), 2), zero_padded(decimal(s), 2));
}

/// The fields of a later instant are larger in the order year, month, day,
/// hour, minute, second.
proof fn lemma_fields_order(
    t1: nat, y1: int, mo1: int, d1: int, h1: int, mi1: int, s1: int,
    t2: nat, y2: int, mo2: int, d2: int, h2: int, mi2: int, s2: int,
)
    requires
        t1 < t2,
        utc_fields(t1, y1, mo1, d1, h1, mi1, s1),
        utc_fields(t2, y2, mo2, d2, h2, mi2, s2),
    ensures
        y1 < y2 || (y1 == y2 && (mo1 < mo2 || (mo1 == mo2 && (d1 < d2 || (d1 == d2 && (h1 < h2 || (h1 == h2 && (mi1 < mi2
            || (mi1 == mi2 && s1 < s2))))))))),
{
    assert(t1 / 86400 <= t2 / 86400) by (nonlinear_arith)
        requires
            t1 < t2,
    ;
    if y1 == y2 && mo1 == mo2 && d1 == d2 {
        let r1 = t1 % 86400;
        let r2 = t2 % 86400;
        assert(r1 < r2) by (nonlinear_arith)
            requires
                t1 < t2,
                t1 / 86400 == t2 / 86400,
                r1 == t1 % 86400,
                r2 == t2 % 86400,
        ;
        assert(t1 % 3600 == r1 % 3600 && t2 % 3600 == r2 % 3600) by (nonlinear_arith)
            requires
                r1 == t1 % 86400,
                r2 == t2 % 86400,
        ;
        assert(t1 % 60 == r1 % 60 && t2 % 60 == r2 % 60) by (nonlinear_arith)
            requires
                r1 == t1 % 86400,
                r2 == t2 % 86400,
        ;
    } else {
        if y2 < y1 || (y2 == y1 && mo2 < mo1) || (y2 == y1 && mo2 == mo1 && d2 < d1) {
            lemma_date_order(y2, mo2, d2, y1, mo1, d1);
        }
    }
}

/// The compact text of larger fields (in the order year, month, day,
/// hour, minute, second) sorts after that of smaller ones.
proof fn lemma_compact_text_order(
    y1: nat, mo1: nat, d1: nat, h1: nat, mi1: nat, s1: nat,
    y2: nat, mo2: nat, d2: nat, h2: nat, mi2: nat, s2: nat,
)
    requires
        y1 < 10000 && y2 < 10000,
        mo1 < 100 && mo2 < 100 && d1 < 100 && d2 < 100 && h1 < 100 && h2 < 100,
        mi1 < 100 && mi2 < 100 && s1 < 100 && s2 < 100,
        y1 < y2 || (y1 == y2 && (mo1 < mo2 || (mo1 == mo2 && (d1 < d2 || (d1 == d2 && (h1 < h2 || (h1 == h2 && (mi1 < mi2
            || (mi1 == mi2 && s1 < s2))))))))),
    ensures
        lex_lt(compact_text(y1, mo1, d1, h1, mi1, s1), compact_text(y2, mo2, d2, h2, mi2, s2)),
{
    let tail1 = zero_padded(decimal(s1), 2);
    let tail2 = zero_padded(decimal(s2), 2);
    if mi1 == mi2 && s1 < s2 {
        lemma_pad_order(s1, s2, 2);
    }
    let m1 = field_then(mi1, 2, tail1);
    let m2 = field_then(mi2, 2, tail2);
    if mi1 < mi2 || (mi1 == mi2 && s1 < s2) {
        lemma_stamp_step(mi1, mi2, 2, tail1, tail2);
    }
    let hh1 = field_then(h1, 2, m1);
    let hh2 = field_then(h2, 2, m2);
    if h1 < h2 || (h1 == h2 && lex_lt(m1, m2)) {
        lemma_stamp_step(h1, h2, 2, m1, m2);
    }
    let dd1 = field_then(d1, 2, hh1);
    let dd2 = field_then(d2, 2, hh2);
    if d1 < d2 || (d1 == d2 && lex_lt(hh1, hh2)) {
        lemma_stamp_step(d1, d2, 2, hh1, hh2);
    }
    let mm1 = field_then(mo1, 2, dd1);
    let mm2 = field_then(mo2, 2, dd2);
    if mo1 < mo2 || (mo1 == mo2 && lex_lt(dd1, dd2)) {
        lemma_stamp_step(mo1, mo2, 2, dd1, dd2);
    }
    lemma_stamp_step(y1, y2, 4, mm1, mm2);
    lemma_compact_shape(y1, mo1, d1, h1, mi1, s1);
    lemma_compact_shape(y2, mo2, d2, h2, mi2, s2);
}

/// An instant before 253402300800 s (10000-01-01) lies in a year below
/// 10000.
proof fn lemma_year_below_10000(t: nat, y: int, mo: int, d: int, h: int, mi: int, s: int)
    requires
        t < 253402300800,
        utc_fields(t, y, mo, d, h, mi, s),
    ensures
        y < 10000,
{
    assert(leap_years_through(9999) == 2424);
    assert(leap_years_through(1969) == 477);
    assert(days_from_civil(10000, 1, 1) == 2932897);
    if y >= 10000 {
        if y > 10000 || mo > 1 || d > 1 {
            lemma_date_order(10000, 1, 1, y, mo, d);
        }
        assert(t / 86400 < 2932897);
    }
}

/// Compact time stamps sort in time order: of two instants before the year
/// 10000, the earlier one's `YYYY-MM-DD-HH-MM-SS` sorts first, so backup
/// folders named after them list oldest first.
pub proof fn lemma_compact_order(t1: nat, t2: nat, c1: Seq<char>, c2: Seq<char>)
    requires
        t1 < t2 < 253402300800,
        is_compact_of(t1, c1),
        is_compact_of(t2, c2),
    ensures
        lex_lt(c1, c2),
{
    let (y1, mo1, d1, h1, mi1, s1) = choose|y: nat, mo: nat, d: nat, h: nat, mi: nat, s: nat|
        utc_fields(t1, y as int, mo as int, d as int, h as int, mi as int, s as int)
            && c1 == #[trigger] compact_text(y, mo, d, h, mi, s);
    let (y2, mo2, d2, h2, mi2, s2) = choose|y: nat, mo: nat, d: nat, h: nat, mi: nat, s: nat|
        utc_fields(t2, y as int, mo as int, d as int, h as int, mi as int, s as int)
            && c2 == #[trigger] compact_text(y, mo, d, h, mi, s);
    lemma_fields_order(t1, y1 as int, mo1 as int, d1 as int, h1 as int, mi1 as int, s1 as int,
        t2, y2 as int, mo2 as int, d2 as int, h2 as int, mi2 as int, s2 as int);
    lemma_year_below_10000(t1, y1 as int, mo1 as int, d1 as int, h1 as int, mi1 as int, s1 as int);
    lemma_year_below_10000(t2, y2 as int, mo2 as int, d2 as int, h2 as int, mi2 as int, s2 as int);
    lemma_compact_text_order(y1, mo1, d1, h1, mi1, s1, y2, mo2, d2, h2, mi2, s2);
}
} // verus!
