use habit_tracker::calendar::{floor_div, local_day, month_index, year_and_month};

#[test]
fn local_day_floors_toward_the_past() {
    assert_eq!(local_day(0, 0), 0);
    assert_eq!(local_day(86_399, 0), 0);
    assert_eq!(local_day(86_399, 1), 1);
    assert_eq!(local_day(-1, 0), -1);
    assert_eq!(local_day(3_600, -7_200), -1);
    assert_eq!(local_day(1_710_500_000, 0), 19797);
}

#[test]
fn floor_division_of_negative_values() {
    assert_eq!(floor_div(-7, 2), -4);
    assert_eq!(floor_div(7, 2), 3);
    assert_eq!(floor_div(-8, 2), -4);
    assert_eq!(floor_div(0, 5), 0);
}

#[test]
fn month_index_of_known_days() {
    assert_eq!(month_index(0), Some(1970 * 12));
    assert_eq!(month_index(19797), Some(2024 * 12 + 2));
    assert_eq!(month_index(19782), Some(2024 * 12 + 1));
    assert_eq!(month_index(-1), Some(1969 * 12 + 11));
    assert_eq!(month_index(i64::MAX), None);
}

#[test]
fn year_and_month_of_index() {
    assert_eq!(year_and_month(2024 * 12 + 2), (2024, 3));
    assert_eq!(year_and_month(1969 * 12 + 11), (1969, 12));
    assert_eq!(year_and_month(-1), (-1, 12));
}
