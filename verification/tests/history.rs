//! Statistics: the 30-day heatmap and the running summary.

use taskday::model::{CreateTaskRequest, Store};

const USER: u128 = 11;
// Day index 30 falls on ISO weekday 3; the heatmap needs today >= 29.
const TODAY: u64 = 30;

fn daily_task(store: &mut Store, title: &str) -> u64 {
    store.create_task(
        USER,
        CreateTaskRequest {
            title: title.to_string(),
            days: vec![1, 2, 3, 4, 5, 6, 7],
            subtasks: None,
        },
    )
}

#[test]
fn heatmap_reports_completed_days() {
    // Scenario: exactly one task scheduled every day, completed on 10 of
    // the last 30 days.
    let mut store = Store::new();
    let id = daily_task(&mut store, "Daily");
    for d in (TODAY - 9)..=TODAY {
        store.toggle_task(id, USER, d).unwrap();
    }
    let stats = store.get_stats(USER, TODAY);
    assert_eq!(stats.history.len(), 30);
    for (k, point) in stats.history.iter().enumerate() {
        assert_eq!(point.date, TODAY - 29 + k as u64);
        if point.date >= TODAY - 9 {
            assert_eq!(point.percent, 100);
        } else {
            assert_eq!(point.percent, 0);
        }
    }
}

#[test]
fn summary_counts_and_rates() {
    let mut store = Store::new();
    let id = daily_task(&mut store, "Daily");
    for d in (TODAY - 9)..=TODAY {
        store.toggle_task(id, USER, d).unwrap();
    }
    let s = store.summary(USER, TODAY);
    assert_eq!(s.total_created, 1);
    assert_eq!(s.total_completed_ever, 10);
    assert_eq!(s.total_scheduled_days, 7);
    // round(10 / 7 * 100) = round(142.86) = 143
    assert_eq!(s.success_rate, 143);
    assert_eq!(s.today_percent, 100);
}

#[test]
fn summary_of_empty_store_is_zero() {
    let store = Store::new();
    let s = store.summary(USER, TODAY);
    assert_eq!(s.total_created, 0);
    assert_eq!(s.total_completed_ever, 0);
    assert_eq!(s.total_scheduled_days, 0);
    assert_eq!(s.success_rate, 0);
    assert_eq!(s.today_percent, 0);
}

#[test]
fn heatmap_counts_subtasks_against_scheduled() {
    // One task due every day with two subtasks, one of them completed:
    // today's scheduled work is the task plus the still-open subtask, and
    // completed work is the completed subtask alone (no ledger row yet), so
    // the day reads round(1 / 2 * 100) = 50.
    let mut store = Store::new();
    let id = store.create_task(
        USER,
        CreateTaskRequest {
            title: "Split".to_string(),
            days: vec![1, 2, 3, 4, 5, 6, 7],
            subtasks: Some(vec!["done".to_string(), "open".to_string()]),
        },
    );
    let sid = store.get_subtasks(id, USER).unwrap()[0].id;
    store.toggle_subtask(id, sid, USER, TODAY).unwrap();
    let s = store.summary(USER, TODAY);
    assert_eq!(s.today_percent, 50);
}

#[test]
fn deleted_tasks_leave_history_but_not_capacity() {
    let mut store = Store::new();
    let id = daily_task(&mut store, "Gone");
    store.toggle_task(id, USER, TODAY).unwrap();
    store.delete_task(id, USER);
    let s = store.summary(USER, TODAY);
    assert_eq!(s.total_created, 0);
    assert_eq!(s.total_completed_ever, 1);
    assert_eq!(s.total_scheduled_days, 0);
    assert_eq!(s.success_rate, 0);
}
