use habit_tracker::tracker::{Activity, HabitTracker};

#[test]
fn appended_records_come_back_in_order() {
    let mut t = HabitTracker::new(Vec::new());
    t.log_activity_at(100, 250, "read".to_string());
    t.log_activity_at(200, 100, "walk".to_string());
    t.log_activity_at(200, 0, "".to_string());
    let a = t.activities();
    assert_eq!(a.len(), 3);
    assert_eq!(
        a[0],
        Activity { timestamp: 100, centihours: 250, description: "read".to_string() }
    );
    assert_eq!(a[1].description, "walk");
    assert_eq!(a[2].centihours, 0);
    assert!(a.windows(2).all(|w| w[0].timestamp <= w[1].timestamp));
}

#[test]
fn logging_now_stamps_the_current_time() {
    let mut t = HabitTracker::new(vec![Activity {
        timestamp: 1_000,
        centihours: 10,
        description: "old".to_string(),
    }]);
    t.log_activity(150, "code".to_string());
    t.log_activity(50, "code".to_string());
    let a = t.activities();
    assert_eq!(a.len(), 3);
    assert!(a[1].timestamp > 1_700_000_000);
    assert!(a[1].timestamp <= a[2].timestamp);
    assert_eq!(a[2].centihours, 50);
}

#[test]
fn view_of_todays_log() {
    let mut t = HabitTracker::new(Vec::new());
    t.log_activity(150, "code".to_string());
    let d = t.view_contributions(365);
    assert_eq!(d.total_centihours, 150);
    assert_eq!(d.active_days, 1);
    assert_eq!(d.streak, 1);
    assert_eq!(d.last_week[6].centihours, 150);
}
