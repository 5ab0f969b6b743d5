use habit_tracker::dashboard::{bar_length, build_dashboard, month_tallies, monthly_rows, streak};
use habit_tracker::tally::{totals, top_by_key, Tally, Total};
use habit_tracker::tracker::HabitTracker;

fn tally(key: i64, amount: i32) -> Tally {
    Tally { key, amount }
}

// 2024-03-15 as a day number counted from 1970-01-01.
const MAR_15_2024: i64 = 19797;

#[test]
fn two_activities_same_day_share_a_bucket() {
    let mut t = HabitTracker::new(Vec::new());
    t.log_activity_at(1_710_500_000, 250, "read".to_string());
    t.log_activity_at(1_710_500_000, 100, "walk".to_string());
    let ts = t.day_tallies();
    assert_eq!(ts.len(), 2);
    assert_eq!(ts[0].key, ts[1].key);
    let d = build_dashboard(&ts, ts[0].key, 365);
    assert_eq!(d.total_centihours, 350);
    assert_eq!(d.active_days, 1);
    assert_eq!(d.best_day_centihours, 350);
    assert_eq!(d.average_centihours, 350);
    assert_eq!(d.streak, 1);
    assert_eq!(d.last_week[6].centihours, 350);
    assert_eq!(d.last_week[6].bar, 20);
}

#[test]
fn zero_day_window_still_charts_the_week() {
    let ts = vec![tally(MAR_15_2024, 200), tally(MAR_15_2024 - 3, 100)];
    let d = build_dashboard(&ts, MAR_15_2024, 0);
    assert_eq!(d.streak, 1);
    assert_eq!(d.last_week.len(), 7);
    assert_eq!(d.last_week[3].day, MAR_15_2024 - 3);
    assert_eq!(d.last_week[3].centihours, 100);
    assert_eq!(d.last_week[3].bar, 10);
    assert_eq!(d.last_week[6].bar, 20);
    assert_eq!(d.months.len(), 1);
    assert_eq!((d.months[0].year, d.months[0].month), (2024, 3));
    assert_eq!(d.months[0].centihours, 300);
    assert_eq!(d.months[0].bar, 30);
}

#[test]
fn empty_log_gives_empty_dashboard() {
    let d = build_dashboard(&Vec::new(), MAR_15_2024, 365);
    assert_eq!(d.streak, 0);
    assert_eq!(d.total_centihours, 0);
    assert_eq!(d.active_days, 0);
    assert_eq!(d.average_centihours, 0);
    assert_eq!(d.best_day_centihours, 0);
    assert_eq!(d.last_week.len(), 7);
    for row in &d.last_week {
        assert_eq!(row.centihours, 0);
        assert_eq!(row.bar, 0);
    }
    assert!(d.months.is_empty());
}

#[test]
fn streak_counts_the_run_ending_today() {
    let ts = vec![
        tally(MAR_15_2024, 50),
        tally(MAR_15_2024 - 1, 50),
        tally(MAR_15_2024 - 2, 50),
        tally(MAR_15_2024 - 4, 50),
    ];
    assert_eq!(streak(&ts, MAR_15_2024, 365), 3);
    assert_eq!(streak(&ts, MAR_15_2024, 1), 2);
    assert_eq!(streak(&ts, MAR_15_2024, -1), 0);
    assert_eq!(streak(&ts, MAR_15_2024 + 1, 365), 0);
}

#[test]
fn zero_hour_day_still_counts_as_active() {
    let ts = vec![tally(MAR_15_2024, 0), tally(MAR_15_2024 - 1, 30)];
    let d = build_dashboard(&ts, MAR_15_2024, 365);
    assert_eq!(d.streak, 2);
    assert_eq!(d.active_days, 2);
    assert_eq!(d.last_week[6].bar, 0);
}

#[test]
fn totals_are_the_same_when_computed_twice() {
    let ts = vec![tally(3, 10), tally(1, 5), tally(3, -4), tally(2, 7), tally(1, 1)];
    let a = totals(&ts);
    let b = totals(&ts);
    assert_eq!(a, b);
    assert_eq!(
        a,
        vec![Total { key: 3, sum: 6 }, Total { key: 1, sum: 6 }, Total { key: 2, sum: 7 }]
    );
}

#[test]
fn statistics_over_all_days() {
    let ts = vec![tally(MAR_15_2024 - 100, 400), tally(MAR_15_2024, 100), tally(MAR_15_2024, 25)];
    let d = build_dashboard(&ts, MAR_15_2024, 7);
    assert_eq!(d.total_centihours, 525);
    assert_eq!(d.active_days, 2);
    assert_eq!(d.average_centihours, 262);
    assert_eq!(d.best_day_centihours, 400);
    assert_eq!(d.last_week[6].centihours, 125);
    assert_eq!(d.last_week[6].bar, 6);
}

#[test]
fn negative_hours_are_kept_and_draw_no_bar() {
    let ts = vec![tally(MAR_15_2024, -150)];
    let d = build_dashboard(&ts, MAR_15_2024, 7);
    assert_eq!(d.total_centihours, -150);
    assert_eq!(d.average_centihours, -150);
    assert_eq!(d.best_day_centihours, 0);
    assert_eq!(d.last_week[6].bar, 0);
    assert_eq!(d.months[0].bar, 0);
}

#[test]
fn bar_lengths_round_to_nearest() {
    assert_eq!(bar_length(175, 350, 20), 10);
    assert_eq!(bar_length(1, 3, 20), 7);
    assert_eq!(bar_length(1, 8, 20), 3);
    assert_eq!(bar_length(350, 350, 30), 30);
    assert_eq!(bar_length(0, 100, 20), 0);
    assert_eq!(bar_length(-5, 100, 20), 0);
    assert_eq!(bar_length(0, 0, 20), 0);
}

#[test]
fn top_keys_come_latest_first() {
    let r = vec![
        Total { key: 5, sum: 1 },
        Total { key: 1, sum: 2 },
        Total { key: 9, sum: 3 },
        Total { key: 3, sum: 4 },
    ];
    assert_eq!(
        top_by_key(&r, 3),
        vec![Total { key: 9, sum: 3 }, Total { key: 5, sum: 1 }, Total { key: 3, sum: 4 }]
    );
    assert_eq!(top_by_key(&r, 0), vec![]);
    assert_eq!(top_by_key(&r, 10).len(), 4);
}

#[test]
fn monthly_rollup_shows_latest_three_months() {
    // 2023-12-31, 2024-01-15, 2024-02-10, 2024-03-15, 2024-03-01
    let ts = vec![
        tally(19722, 100),
        tally(19737, 300),
        tally(19763, 150),
        tally(MAR_15_2024, 50),
        tally(19783, 50),
    ];
    let mts = month_tallies(&ts);
    assert_eq!(mts.len(), 5);
    assert_eq!(mts[0].key, 2023 * 12 + 11);
    assert_eq!(mts[1].key, 2024 * 12);
    let rows = monthly_rows(&mts);
    assert_eq!(rows.len(), 3);
    assert_eq!((rows[0].year, rows[0].month, rows[0].centihours), (2024, 3, 100));
    assert_eq!((rows[1].year, rows[1].month, rows[1].centihours), (2024, 2, 150));
    assert_eq!((rows[2].year, rows[2].month, rows[2].centihours), (2024, 1, 300));
    assert_eq!(rows[0].bar, 10);
    assert_eq!(rows[1].bar, 15);
    assert_eq!(rows[2].bar, 30);
}
