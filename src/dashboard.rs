use vstd::prelude::*;
use crate::calendar::{month_index, month_index_of_day, year_and_month, floor_div};
use crate::tally::{
    Tally, Total, keys_in_order, sum_for, sum_all, has_key, are_totals_of, max_sum, keys_distinct,
    is_top, sum_bound, totals, max_of, sum_amounts, contains_key, top_by_key, lemma_keys_in_order,
    lemma_max_sum, lemma_sum_for_bounded, lemma_sum_all_bounded,
};

verus! {

/// Width, in characters, of the bar of the busiest day.
pub const DAY_BAR_WIDTH: u64 = 20;

/// Width, in characters, of the bar of the busiest month.
pub const MONTH_BAR_WIDTH: u64 = 30;

/// How many months the rollup shows.
pub const MONTHS_SHOWN: usize = 3;

/// One day of the chart of the last week.
#[derive(Clone, Copy, Debug, PartialEq, Eq)]
pub struct ChartRow {
    pub day: i64,
    pub centihours: i128,
    pub bar: u64,
}

/// One calendar month of the rollup.
#[derive(Clone, Copy, Debug, PartialEq, Eq)]
pub struct MonthRow {
    pub year: i64,
    pub month: u32,
    pub centihours: i128,
    pub bar: u64,
}

/// Everything the dashboard shows, in hundredths of an hour.
#[derive(Debug)]
pub struct Dashboard {
    pub streak: u64,
    pub total_centihours: i128,
    pub active_days: usize,
    pub average_centihours: i128,
    pub best_day_centihours: i128,
    pub last_week: Vec<ChartRow>,
    pub months: Vec<MonthRow>,
}

/// Length of the bar for `amount` on a scale where `max` fills `width`
/// characters, rounded to the nearest character; no bar unless both are
/// positive.
pub open spec fn bar_width(amount: int, max: int, width: int) -> int {
    if amount > 0 && max > 0 {
        (2 * width * amount + max) / (2 * max)
    } else {
        0
    }
}

/// Length of the bar for `amount` where `max` fills `width` characters.
pub fn bar_length(amount: i128, max: i128, width: u64) -> (r: u64)
    requires
        amount <= max <= 0x1_0000_0000_0000_0000_0000_0000,
        width <= 1000,
    ensures
        r == bar_width(amount as int, max as int, width as int),
        r <= width,
{
    if amount > 0 && max > 0 {
        proof {
            assert(2 * width * amount <= 2000 * 0x1_0000_0000_0000_0000_0000_0000) by (nonlinear_arith)
                requires 0 < amount <= 0x1_0000_0000_0000_0000_0000_0000, width <= 1000;
        }
        let num: u128 = 2 * (width as u128) * (amount as u128) + max as u128;
        let den: u128 = 2 * (max as u128);
        let q: u128 = num / den;
        proof {
            vstd::arithmetic::div_mod::lemma_fundamental_div_mod(num as int, den as int);
            assert(num < den * (width + 1)) by (nonlinear_arith)
                requires num == 2 * width * amount + max, den == 2 * max, amount <= max, max > 0;
            assert(q <= width) by (nonlinear_arith)
                requires num == den * q + num % den, num % den >= 0, num < den * (width + 1), den > 0;
        }
        q as u64
    } else {
        0
    }
}

/// How many days are checked for the streak in a window of `days` days:
/// today and the `days` before it.
pub open spec fn streak_limit(days: int) -> nat {
    if days >= 0 {
        (days + 1) as nat
    } else {
        0
    }
}

/// The number of consecutive days, walking back from `day` and checking at
/// most `n` of them, on which some tally of `ts` falls.
pub open spec fn streak_from(ts: Seq<Tally>, day: int, n: nat) -> nat
    decreases n,
{
    if n == 0 || !has_key(ts, day) {
        0
    } else {
        1 + streak_from(ts, day - 1, (n - 1) as nat)
    }
}

proof fn lemma_run(ts: Seq<Tally>, day: int, n: nat, k: nat)
    requires
        k <= n,
        forall|x: int| day - k < x <= day ==> has_key(ts, x),
        !has_key(ts, day - k),
    ensures
        streak_from(ts, day, n) == k,
    decreases k,
{
    if k > 0 {
        assert(has_key(ts, day));
        assert(day - 1 - (k - 1) == day - k);
        lemma_run(ts, day - 1, (n - 1) as nat, (k - 1) as nat);
    }
}

/// When activity falls on each of the last `k` days up to `today` and not on
/// the day before them, the streak is `k`, for any window of at least `k`
/// days.
pub proof fn lemma_streak_of_run(ts: Seq<Tally>, today: int, days: int, k: nat)
    requires
        k <= days,
        forall|x: int| today - k < x <= today ==> has_key(ts, x),
        !has_key(ts, today - k),
    ensures
        streak_from(ts, today, streak_limit(days)) == k,
{
    lemma_run(ts, today, streak_limit(days), k);
}

/// The current run of active days ending on `today`, looking back over a
/// window of `days` days.
pub fn streak(ts: &Vec<Tally>, today: i64, days: i64) -> (r: u64)
    ensures
        r == streak_from(ts@, today as int, streak_limit(days as int)),
{
    let limit: u64 = if days >= 0 {
        days as u64 + 1
    } else {
        0
    };
    let mut count: u64 = 0;
    let mut going = true;
    while going && count < limit
        invariant
            count <= limit,
            limit == streak_limit(days as int),
            streak_from(ts@, today as int, limit as nat) == count + if going {
                streak_from(ts@, today - count, (limit - count) as nat)
            } else {
                0
            },
        decreases limit - count + if going { 1int } else { 0int },
    {
        let cursor: i128 = today as i128 - count as i128;
        if contains_key(ts, cursor) {
            count = count + 1;
        } else {
            going = false;
        }
    }
    count
}

/// The greatest of the sums filed under the keys `ks`, and 0 when none is
/// greater.
pub open spec fn max_over(ts: Seq<Tally>, ks: Seq<i64>) -> int
    decreases ks.len(),
{
    if ks.len() == 0 {
        0
    } else {
        let m = max_over(ts, ks.drop_last());
        let s = sum_for(ts, ks.last() as int);
        if s > m {
            s
        } else {
            m
        }
    }
}

/// The busiest key's sum, and 0 when none is positive.
pub open spec fn best_sum(ts: Seq<Tally>) -> int {
    max_over(ts, keys_in_order(ts))
}

proof fn lemma_max_sum_of_totals(r: Seq<Total>, ts: Seq<Tally>, ks: Seq<i64>)
    requires
        r.len() == ks.len(),
        forall|i: int| 0 <= i < r.len() ==> r[i].key == ks[i] && r[i].sum == sum_for(ts, ks[i] as int),
    ensures
        max_sum(r) == max_over(ts, ks),
    decreases r.len(),
{
    if r.len() > 0 {
        lemma_max_sum_of_totals(r.drop_last(), ts, ks.drop_last());
    }
}

/// Size bound that every sum of a sequence held in memory keeps to.
proof fn lemma_bound_fits(n: int)
    requires
        0 <= n <= usize::MAX,
    ensures
        sum_bound(n) <= 0x1_0000_0000_0000_0000_0000_0000,
{
    assert(n * 0x8000_0000 <= 0x1_0000_0000_0000_0000_0000_0000) by (nonlinear_arith)
        requires 0 <= n <= 0x1_0000_0000_0000_0000;
}

/// The sum filed under key `k` among the totals `r`.
fn sum_of_key(r: &Vec<Total>, k: i64, ts: Ghost<Seq<Tally>>) -> (s: i128)
    requires
        are_totals_of(r@, ts@),
    ensures
        s == sum_for(ts@, k as int),
{
    let mut i: usize = 0;
    while i < r.len()
        invariant
            are_totals_of(r@, ts@),
            i <= r.len(),
            forall|j: int| 0 <= j < i ==> r@[j].key != k,
        decreases r.len() - i,
    {
        if r[i].key == k {
            return r[i].sum;
        }
        i = i + 1;
    }
    proof {
        lemma_keys_in_order(ts@, k);
        if keys_in_order(ts@).contains(k) {
            let j = choose|j: int| 0 <= j < keys_in_order(ts@).len() && keys_in_order(ts@)[j] == k;
            assert(r@[j].key == k);
        }
    }
    0
}

/// `rows` is the chart of the seven days ending on `today`, each with its
/// summed amount and a bar scaled so that `best` fills the full width.
pub open spec fn chart_describes(rows: Seq<ChartRow>, ts: Seq<Tally>, today: int, best: int) -> bool {
    &&& rows.len() == 7
    &&& forall|i: int|
        0 <= i < 7 ==> {
            &&& (#[trigger] rows[i]).day == today - 6 + i
            &&& rows[i].centihours == sum_for(ts, today - 6 + i)
            &&& rows[i].bar == bar_width(sum_for(ts, today - 6 + i), best, DAY_BAR_WIDTH as int)
        }
}

/// The chart of the seven days ending on `today`.
fn last_week(r: &Vec<Total>, today: i64, best: i128, ts: Ghost<Seq<Tally>>) -> (rows: Vec<ChartRow>)
    requires
        are_totals_of(r@, ts@),
        i64::MIN + 6 <= today,
        best == max_sum(r@),
        ts@.len() <= usize::MAX,
    ensures
        chart_describes(rows@, ts@, today as int, best as int),
{
    let mut rows: Vec<ChartRow> = Vec::new();
    let mut i: i64 = 0;
    while i < 7
        invariant
            are_totals_of(r@, ts@),
            i64::MIN + 6 <= today,
            best == max_sum(r@),
            ts@.len() <= usize::MAX,
            0 <= i <= 7,
            rows@.len() == i,
            forall|j: int|
                0 <= j < i ==> {
                    &&& (#[trigger] rows@[j]).day == today - 6 + j
                    &&& rows@[j].centihours == sum_for(ts@, today - 6 + j)
                    &&& rows@[j].bar == bar_width(
                        sum_for(ts@, today - 6 + j),
                        best as int,
                        DAY_BAR_WIDTH as int,
                    )
                },
        decreases 7 - i,
    {
        let day = today - 6 + i;
        let s = sum_of_key(r, day, ts);
        proof {
            lemma_max_sum(r@);
            lemma_keys_in_order(ts@, day);
            if keys_in_order(ts@).contains(day) {
                let j = choose|j: int| 0 <= j < keys_in_order(ts@).len() && keys_in_order(ts@)[j] == day;
                assert(r@[j].sum == s);
            }
            lemma_bound_fits(ts@.len() as int);
            if best != 0 {
                let j = choose|j: int| 0 <= j < r@.len() && r@[j].sum == max_sum(r@);
                lemma_sum_for_bounded(ts@, r@[j].key as int);
            }
        }
        let bar = bar_length(s, best, DAY_BAR_WIDTH);
        rows.push(ChartRow { day, centihours: s, bar });
        i = i + 1;
    }
    rows
}

/// Each tally moved from its day to the month index of that day; tallies on
/// days that the calendar cannot place are left out.
pub open spec fn month_tallies_of(ts: Seq<Tally>) -> Seq<Tally>
    decreases ts.len(),
{
    if ts.len() == 0 {
        Seq::empty()
    } else {
        let p = month_tallies_of(ts.drop_last());
        match month_index_of_day(ts.last().key as int) {
            Some(k) => p.push(Tally { key: k as i64, amount: ts.last().amount }),
            None => p,
        }
    }
}

/// Files each day tally of `ts` under the month of its day.
pub fn month_tallies(ts: &Vec<Tally>) -> (r: Vec<Tally>)
    ensures
        r@ == month_tallies_of(ts@),
{
    let mut r: Vec<Tally> = Vec::new();
    let mut i: usize = 0;
    while i < ts.len()
        invariant
            i <= ts.len(),
            r@ == month_tallies_of(ts@.take(i as int)),
        decreases ts.len() - i,
    {
        assert(ts@.take(i as int + 1).drop_last() == ts@.take(i as int));
        if let Some(k) = month_index(ts[i].key) {
            r.push(Tally { key: k, amount: ts[i].amount });
        }
        i = i + 1;
    }
    assert(ts@.take(ts.len() as int) == ts@);
    r
}

/// The month index of a row of the rollup.
pub open spec fn row_key(row: MonthRow) -> int {
    12 * row.year + row.month - 1
}

/// `rows` is the rollup of the month tallies `mts`: the months with the
/// latest indices, latest first, at most `MONTHS_SHOWN` of them, each with
/// its summed amount and a bar scaled so that the busiest month of all fills
/// the full width; a month left out is earlier than every month shown.
pub open spec fn months_describe(rows: Seq<MonthRow>, mts: Seq<Tally>) -> bool {
    &&& rows.len() <= MONTHS_SHOWN
    &&& forall|i: int|
        0 <= i < rows.len() ==> {
            &&& 1 <= (#[trigger] rows[i]).month <= 12
            &&& has_key(mts, row_key(rows[i]))
            &&& rows[i].centihours == sum_for(mts, row_key(rows[i]))
            &&& rows[i].bar == bar_width(
                rows[i].centihours as int,
                best_sum(mts),
                MONTH_BAR_WIDTH as int,
            )
        }
    &&& forall|i: int, j: int| 0 <= i < j < rows.len() ==> row_key(rows[i]) > row_key(rows[j])
    &&& forall|k: int|
        has_key(mts, k) && (forall|i: int| 0 <= i < rows.len() ==> row_key(#[trigger] rows[i]) != k)
            ==> rows.len() == MONTHS_SHOWN && k < row_key(rows.last())
}

/// The rollup of the latest months among the month tallies `mts`.
pub fn monthly_rows(mts: &Vec<Tally>) -> (rows: Vec<MonthRow>)
    ensures
        months_describe(rows@, mts@),
{
    let t = totals(mts);
    let n_mts = mts.len();
    proof {
        lemma_keys_in_order(mts@, 0);
        assert(keys_distinct(t@)) by {
            assert forall|i: int, j: int| 0 <= i < j < t@.len() implies t@[i].key != t@[j].key by {
                assert(keys_in_order(mts@)[i] != keys_in_order(mts@)[j]);
            }
        }
        lemma_max_sum_of_totals(t@, mts@, keys_in_order(mts@));
        lemma_max_sum(t@);
        lemma_bound_fits(n_mts as int);
        if max_sum(t@) != 0 {
            let j = choose|j: int| 0 <= j < t@.len() && t@[j].sum == max_sum(t@);
            lemma_sum_for_bounded(mts@, t@[j].key as int);
        }
    }
    let top = top_by_key(&t, MONTHS_SHOWN);
    let best = max_of(&t);
    let mut rows: Vec<MonthRow> = Vec::new();
    let mut i: usize = 0;
    while i < top.len()
        invariant
            are_totals_of(t@, mts@),
            is_top(top@, t@, MONTHS_SHOWN as int),
            best == max_sum(t@),
            best == best_sum(mts@),
            best <= 0x1_0000_0000_0000_0000_0000_0000,
            forall|j: int| 0 <= j < t@.len() ==> t@[j].sum <= max_sum(t@),
            i <= top.len(),
            rows@.len() == i,
            forall|j: int|
                0 <= j < i ==> {
                    &&& 1 <= (#[trigger] rows@[j]).month <= 12
                    &&& row_key(rows@[j]) == top@[j].key
                    &&& rows@[j].centihours == top@[j].sum
                    &&& rows@[j].bar == bar_width(
                        top@[j].sum as int,
                        best as int,
                        MONTH_BAR_WIDTH as int,
                    )
                },
        decreases top.len() - i,
    {
        let e = top[i];
        proof {
            assert(t@.contains(top@[i as int]));
        }
        let (y, m) = year_and_month(e.key);
        proof {
            vstd::arithmetic::div_mod::lemma_fundamental_div_mod(e.key as int, 12);
        }
        let bar = bar_length(e.sum, best, MONTH_BAR_WIDTH);
        rows.push(MonthRow { year: y, month: m, centihours: e.sum, bar });
        i = i + 1;
    }
    proof {
        assert forall|i: int| 0 <= i < rows@.len() implies has_key(mts@, row_key(#[trigger] rows@[i]))
            && rows@[i].centihours == sum_for(mts@, row_key(rows@[i])) by {
            assert(t@.contains(top@[i]));
            let j = choose|j: int| 0 <= j < t@.len() && t@[j] == top@[i];
            lemma_keys_in_order(mts@, t@[j].key);
            assert(keys_in_order(mts@).contains(keys_in_order(mts@)[j]));
        }
        assert forall|k: int|
            has_key(mts@, k) && (forall|i: int| 0 <= i < rows@.len() ==> row_key(#[trigger] rows@[i]) != k)
                implies rows@.len() == MONTHS_SHOWN && k < row_key(rows@.last()) by {
            let x = choose|x: int| 0 <= x < mts@.len() && mts@[x].key == k;
            let kk = mts@[x].key;
            lemma_keys_in_order(mts@, kk);
            let j = choose|j: int| 0 <= j < keys_in_order(mts@).len() && keys_in_order(mts@)[j] == kk;
            assert(t@[j].key == kk);
            if top@.contains(t@[j]) {
                let i = choose|i: int| 0 <= i < top@.len() && top@[i] == t@[j];
                assert(row_key(rows@[i]) == k);
            }
            assert(!top@.contains(t@[j]));
        }
    }
    rows
}

/// `d` shows the tallies `ts` of activity per local day: the streak ending
/// on `today` within a window of `days` days, the totals over all days, the
/// chart of the last seven days and the rollup of the latest months.
pub open spec fn describes(d: Dashboard, ts: Seq<Tally>, today: int, days: int) -> bool {
    let active = keys_in_order(ts).len();
    &&& d.streak == streak_from(ts, today, streak_limit(days))
    &&& d.total_centihours == sum_all(ts)
    &&& d.active_days == active
    &&& d.average_centihours == if active == 0 {
        0
    } else {
        sum_all(ts) / (active as int)
    }
    &&& d.best_day_centihours == best_sum(ts)
    &&& chart_describes(d.last_week@, ts, today, best_sum(ts))
    &&& months_describe(d.months@, month_tallies_of(ts))
}

/// The dashboard of the day tallies `ts` seen on local day `today`, with a
/// streak window of `days` days.
pub fn build_dashboard(ts: &Vec<Tally>, today: i64, days: i64) -> (d: Dashboard)
    requires
        i64::MIN + 6 <= today,
    ensures
        describes(d, ts@, today as int, days as int),
{
    let day_totals = totals(ts);
    let best = max_of(&day_totals);
    let total = sum_amounts(ts);
    let n_ts = ts.len();
    proof {
        lemma_max_sum_of_totals(day_totals@, ts@, keys_in_order(ts@));
        lemma_sum_all_bounded(ts@);
        lemma_bound_fits(n_ts as int);
    }
    let active = day_totals.len();
    let average: i128 = if active == 0 {
        0
    } else {
        floor_div(total, active as i128)
    };
    let streak = streak(ts, today, days);
    let last_week = last_week(&day_totals, today, best, Ghost(ts@));
    let mts = month_tallies(ts);
    let months = monthly_rows(&mts);
    Dashboard {
        streak,
        total_centihours: total,
        active_days: active,
        average_centihours: average,
        best_day_centihours: best,
        last_week,
        months,
    }
}

/// With nothing logged the dashboard shows no streak, zero totals, average
/// and best day, seven empty bars and no month.
pub proof fn lemma_empty_dashboard(d: Dashboard, today: int, days: int)
    requires
        describes(d, Seq::empty(), today, days),
    ensures
        d.streak == 0,
        d.total_centihours == 0,
        d.active_days == 0,
        d.average_centihours == 0,
        d.best_day_centihours == 0,
        d.last_week@.len() == 7,
        forall|i: int| 0 <= i < 7 ==> (#[trigger] d.last_week@[i]).centihours == 0 && d.last_week@[i].bar == 0,
        d.months@.len() == 0,
{
    let e = Seq::<Tally>::empty();
    assert(keys_in_order(e).len() == 0);
    assert(month_tallies_of(e) =~= e);
    if d.months@.len() > 0 {
        assert(has_key(e, row_key(d.months@[0])));
    }
}

} // verus!
