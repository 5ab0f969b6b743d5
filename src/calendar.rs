use chrono::{Datelike, TimeZone};
use vstd::prelude::*;

verus! {

/// Seconds in one calendar day.
pub const SECS_PER_DAY: i64 = 86400;

/// Day number, counted from 0001-01-01 as day 1, of 1970-01-01.
pub const EPOCH_CE_DAY: i64 = 719163;

/// Floor division: the greatest `q` with `q * b <= a`.
pub fn floor_div(a: i128, b: i128) -> (r: i128)
    requires
        b > 0,
        -0x1000_0000_0000_0000_0000_0000_0000 <= a <= 0x1000_0000_0000_0000_0000_0000_0000,
    ensures
        r == a / b,
        a >= 0 ==> 0 <= r <= a,
        a < 0 ==> a <= r < 0,
{
    if a >= 0 {
        let q: u128 = (a as u128) / (b as u128);
        proof {
            vstd::arithmetic::div_mod::lemma_fundamental_div_mod(a as int, b as int);
            vstd::arithmetic::div_mod::lemma_fundamental_div_mod_converse(
                a as int, b as int, q as int, (a as u128 % b as u128) as int);
            assert(q <= a) by (nonlinear_arith)
                requires q * b + (a as u128 % b as u128) == a, b > 0, a as u128 % b as u128 >= 0;
        }
        q as i128
    } else {
        let m: u128 = (-1 - a) as u128;
        let q: u128 = m / (b as u128);
        let rem: u128 = m % (b as u128);
        proof {
            vstd::arithmetic::div_mod::lemma_fundamental_div_mod(m as int, b as int);
            assert(q <= m) by (nonlinear_arith)
                requires q * b + rem == m, b > 0, rem >= 0;
            assert(a == (-(q as int) - 1) * b + (b - 1 - rem)) by (nonlinear_arith)
                requires q * b + rem == m, m == -1 - a;
            vstd::arithmetic::div_mod::lemma_fundamental_div_mod_converse(
                a as int, b as int, -(q as int) - 1, b - 1 - rem);
        }
        -(q as i128) - 1
    }
}

/// The local calendar day of instant `ts` (seconds since the epoch, UTC)
/// seen from a time zone `offset` seconds ahead of UTC.
pub open spec fn local_day_of(ts: int, offset: int) -> int {
    (ts + offset) / (SECS_PER_DAY as int)
}

/// Day number of the local calendar day holding instant `ts`.
pub fn local_day(ts: i64, offset: i32) -> (r: i64)
    requires
        -86400 < offset < 86400,
    ensures
        r == local_day_of(ts as int, offset as int),
        -0x10_0000_0000_0000 < r < 0x10_0000_0000_0000,
{
    let s: i128 = ts as i128 + offset as i128;
    let d = floor_div(s, SECS_PER_DAY as i128);
    proof {
        let q = d as int;
        assert(q * 86400 <= s) by (nonlinear_arith)
            requires q == (s as int) / 86400int;
        assert(s < q * 86400 + 86400) by (nonlinear_arith)
            requires q == (s as int) / 86400int;
        assert(-0x10_0000_0000_0000 < q < 0x10_0000_0000_0000) by (nonlinear_arith)
            requires q * 86400 <= s < q * 86400 + 86400,
                -0x8000_0000_0001_5180 <= s <= 0x8000_0000_0001_5180;
    }
    d as i64
}

/// Calendar year and month (1 to 12) of the day numbered `n` counted from
/// 0001-01-01 as day 1, where the proleptic Gregorian calendar has it.
pub uninterp spec fn year_month_of_ce_day(n: int) -> Option<(int, int)>;

/// Relies on `chrono::NaiveDate::from_num_days_from_ce_opt` and on the
/// `year` and `month` of the date it gives: the month is 1 to 12.
#[verifier::external_body]
fn year_month_from_ce_day(n: i32) -> (r: Option<(i32, u32)>)
    ensures
        r is Some <==> year_month_of_ce_day(n as int) is Some,
        r matches Some((y, m)) ==> year_month_of_ce_day(n as int) == Some((y as int, m as int))
            && 1 <= m <= 12,
{
    match chrono::NaiveDate::from_num_days_from_ce_opt(n) {
        Some(d) => Some((d.year(), d.month())),
        None => None,
    }
}

/// Relies on `chrono::Utc::now`: seconds since the epoch of the current
/// instant. Nothing is known of the value; chrono panics when the system
/// clock reads before the epoch.
#[verifier::external_body]
pub(crate) fn utc_now_secs() -> (r: i64) {
    chrono::Utc::now().timestamp()
}

/// Relies on `chrono::DateTime::from_timestamp` and on the offset that
/// `chrono::Local` gives for that instant: `None` where the instant is out of
/// chrono's range, else an offset that chrono's `FixedOffset` keeps strictly
/// within one day. It depends on the machine's time zone.
#[verifier::external_body]
pub(crate) fn local_offset_secs(ts: i64) -> (r: Option<i32>)
    ensures
        r matches Some(o) ==> -86400 < o < 86400,
{
    match chrono::DateTime::from_timestamp(ts, 0) {
        Some(t) => Some(chrono::Local.offset_from_utc_datetime(&t.naive_utc()).local_minus_utc()),
        None => None,
    }
}

/// The month index `12 * year + month - 1` of the calendar month holding
/// day number `day`, or `None` where the calendar has no date for it.
pub open spec fn month_index_of_day(day: int) -> Option<int> {
    let n = day + EPOCH_CE_DAY;
    if i32::MIN <= n <= i32::MAX {
        match year_month_of_ce_day(n) {
            Some((y, m)) => Some(12 * y + m - 1),
            None => None,
        }
    } else {
        None
    }
}

/// Month index of the calendar month that holds day number `day`.
pub fn month_index(day: i64) -> (r: Option<i64>)
    ensures
        r matches Some(k) ==> month_index_of_day(day as int) == Some(k as int),
        r is None ==> month_index_of_day(day as int) is None,
{
    let n: i128 = day as i128 + EPOCH_CE_DAY as i128;
    if n < i32::MIN as i128 || n > i32::MAX as i128 {
        return None;
    }
    match year_month_from_ce_day(n as i32) {
        Some((y, m)) => Some(12 * (y as i64) + m as i64 - 1),
        None => None,
    }
}

/// The calendar year and month (1 to 12) of month index `k`.
pub fn year_and_month(k: i64) -> (r: (i64, u32))
    ensures
        r.0 == k / 12,
        r.1 == k % 12 + 1,
        1 <= r.1 <= 12,
{
    let y = floor_div(k as i128, 12);
    proof {
        vstd::arithmetic::div_mod::lemma_fundamental_div_mod(k as int, 12);
    }
    let m: i128 = k as i128 - 12 * y;
    (y as i64, (m + 1) as u32)
}

} // verus!
