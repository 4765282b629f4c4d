//! Engine behaviour: task and subtask CRUD, completion propagation,
//! reordering and the read views, exercised on an in-memory store.

use taskday::model::{
    CreateSubtaskRequest, CreateTaskRequest, EngineError, Store, SubtaskUpdate, UpdateSubtaskRequest,
    UpdateTaskRequest,
};

const USER: u128 = 7;
const OTHER: u128 = 8;
// Day index 30 falls on ISO weekday 3 (day 0 is a Monday).
const TODAY: u64 = 30;

fn new_task(store: &mut Store, user: u128, title: &str, days: Vec<u8>) -> u64 {
    store.create_task(
        user,
        CreateTaskRequest { title: title.to_string(), days, subtasks: None },
    )
}

#[test]
fn create_task_works() {
    let mut store = Store::new();
    let id = new_task(&mut store, USER, "Test task", vec![]);
    assert!(id >= 1);
    let all = store.get_all_tasks(USER);
    assert_eq!(all.len(), 1);
    assert_eq!(all[0].id, id);
    assert_eq!(all[0].title, "Test task");
    assert!(all[0].active);
}

#[test]
fn task_days_are_inserted() {
    let mut store = Store::new();
    let id = new_task(&mut store, USER, "Task with days", vec![1, 3, 5]);
    let all = store.get_all_tasks(USER);
    assert_eq!(all.len(), 1);
    assert_eq!(all[0].id, id);
    assert_eq!(all[0].days, vec![1, 3, 5]);
}

#[test]
fn soft_delete_hides_task() {
    let mut store = Store::new();
    let id = new_task(&mut store, USER, "Soft delete task", vec![3]);
    assert_eq!(store.get_all_tasks(USER).len(), 1);
    store.delete_task(id, USER);
    assert_eq!(store.get_all_tasks(USER).len(), 0);
    assert_eq!(store.get_today_tasks(USER, TODAY).len(), 0);
}

#[test]
fn today_tasks_only_matching_day() {
    let mut store = Store::new();
    let today_id = new_task(&mut store, USER, "Today task", vec![3]);
    let _other = new_task(&mut store, USER, "Other day task", vec![4]);
    let due = store.get_today_tasks(USER, TODAY);
    assert_eq!(due.len(), 1);
    assert_eq!(due[0].id, today_id);
}

#[test]
fn gym_toggles_through_ledger() {
    // Scenario: "Gym" recurs on weekday 3 only; today is weekday 3; no
    // ledger row exists yet.
    let mut store = Store::new();
    let id = new_task(&mut store, USER, "Gym", vec![3]);
    let due = store.get_today_tasks(USER, TODAY);
    assert_eq!(due.len(), 1);
    assert!(!due[0].completed);
    assert_eq!(due[0].priority, 0);

    store.toggle_task(id, USER, TODAY).unwrap();
    assert!(store.get_today_tasks(USER, TODAY)[0].completed);

    store.toggle_task(id, USER, TODAY).unwrap();
    assert!(!store.get_today_tasks(USER, TODAY)[0].completed);
}

#[test]
fn report_completes_after_both_subtasks() {
    // Scenario: "Report" has subtasks A and B, both incomplete; toggling A
    // then B must leave the parent completed in the daily view.
    let mut store = Store::new();
    let id = store.create_task(
        USER,
        CreateTaskRequest {
            title: "Report".to_string(),
            days: vec![3],
            subtasks: Some(vec!["A".to_string(), "B".to_string()]),
        },
    );
    let subs = store.get_subtasks(id, USER).unwrap();
    assert_eq!(subs.len(), 2);
    let (a, b) = (subs[0].id, subs[1].id);

    store.toggle_subtask(id, a, USER, TODAY).unwrap();
    assert!(!store.get_today_tasks(USER, TODAY)[0].completed);

    store.toggle_subtask(id, b, USER, TODAY).unwrap();
    let due = store.get_today_tasks(USER, TODAY);
    assert!(due[0].completed);
    assert_eq!(due[0].subtasks.len(), 2);
    assert!(due[0].subtasks.iter().all(|st| st.completed));
}

#[test]
fn toggle_subtask_twice_restores_state() {
    let mut store = Store::new();
    let id = store.create_task(
        USER,
        CreateTaskRequest {
            title: "Pack".to_string(),
            days: vec![3],
            subtasks: Some(vec!["tent".to_string(), "boots".to_string()]),
        },
    );
    let subs = store.get_subtasks(id, USER).unwrap();
    let first = subs[0].id;

    store.toggle_subtask(id, first, USER, TODAY).unwrap();
    let mid = store.get_subtasks(id, USER).unwrap();
    assert!(mid[0].completed);

    store.toggle_subtask(id, first, USER, TODAY).unwrap();
    let back = store.get_subtasks(id, USER).unwrap();
    assert!(!back[0].completed);
    assert_eq!(back.len(), subs.len());
    // The parent ledger row converged to "all subtasks completed" (false).
    assert!(!store.get_today_tasks(USER, TODAY)[0].completed);
}

#[test]
fn toggle_task_cascades_to_subtasks() {
    let mut store = Store::new();
    let id = store.create_task(
        USER,
        CreateTaskRequest {
            title: "Chores".to_string(),
            days: vec![3],
            subtasks: Some(vec!["dishes".to_string(), "laundry".to_string()]),
        },
    );
    store.toggle_task(id, USER, TODAY).unwrap();
    let subs = store.get_subtasks(id, USER).unwrap();
    assert!(subs.iter().all(|st| st.completed));
    assert!(store.get_today_tasks(USER, TODAY)[0].completed);

    store.toggle_task(id, USER, TODAY).unwrap();
    let subs = store.get_subtasks(id, USER).unwrap();
    assert!(subs.iter().all(|st| !st.completed));
}

#[test]
fn reorder_is_idempotent() {
    let mut store = Store::new();
    let a = new_task(&mut store, USER, "a", vec![3]);
    let b = new_task(&mut store, USER, "b", vec![3]);

    store.update_task_priorities(USER, &vec![b, a], TODAY);
    let once: Vec<(u64, u64)> =
        store.get_today_tasks(USER, TODAY).iter().map(|t| (t.id, t.priority)).collect();
    assert_eq!(once, vec![(b, 0), (a, 1)]);

    store.update_task_priorities(USER, &vec![b, a], TODAY);
    let twice: Vec<(u64, u64)> =
        store.get_today_tasks(USER, TODAY).iter().map(|t| (t.id, t.priority)).collect();
    assert_eq!(once, twice);
}

#[test]
fn reorder_preserves_completion() {
    let mut store = Store::new();
    let a = new_task(&mut store, USER, "a", vec![3]);
    store.toggle_task(a, USER, TODAY).unwrap();
    store.update_task_priorities(USER, &vec![a], TODAY);
    let due = store.get_today_tasks(USER, TODAY);
    assert!(due[0].completed);
    assert_eq!(due[0].priority, 0);
}

#[test]
fn replace_subtasks_with_empty_list_clears() {
    let mut store = Store::new();
    let id = store.create_task(
        USER,
        CreateTaskRequest {
            title: "Plan".to_string(),
            days: vec![3],
            subtasks: Some(vec!["x".to_string(), "y".to_string()]),
        },
    );
    store.replace_subtasks(id, USER, &vec![]).unwrap();
    assert_eq!(store.get_subtasks(id, USER).unwrap().len(), 0);
    let all = store.get_all_tasks(USER);
    assert!(!all[0].has_subtasks);
}

#[test]
fn replace_subtasks_skips_blank_titles() {
    let mut store = Store::new();
    let id = new_task(&mut store, USER, "Plan", vec![3]);
    store
        .replace_subtasks(
            id,
            USER,
            &vec!["first".to_string(), "   ".to_string(), "second".to_string(), "".to_string()],
        )
        .unwrap();
    let subs = store.get_subtasks(id, USER).unwrap();
    assert_eq!(subs.len(), 2);
    assert_eq!(subs[0].title, "first");
    assert_eq!(subs[0].priority, 0);
    assert!(!subs[0].completed);
    assert_eq!(subs[1].title, "second");
    assert_eq!(subs[1].priority, 1);
    assert!(store.get_all_tasks(USER)[0].has_subtasks);
}

#[test]
fn create_subtask_appends_after_max_rank() {
    let mut store = Store::new();
    let id = new_task(&mut store, USER, "List", vec![3]);
    let s1 = store
        .create_subtask(id, USER, CreateSubtaskRequest { title: "one".to_string() })
        .unwrap();
    let s2 = store
        .create_subtask(id, USER, CreateSubtaskRequest { title: "two".to_string() })
        .unwrap();
    let subs = store.get_subtasks(id, USER).unwrap();
    assert_eq!(subs.len(), 2);
    assert_eq!(subs[0].priority, 0);
    assert_eq!(subs[1].priority, 1);

    store.delete_subtask(id, s1, USER).unwrap();
    let s3 = store
        .create_subtask(id, USER, CreateSubtaskRequest { title: "three".to_string() })
        .unwrap();
    assert_ne!(s3, s2);
    let subs = store.get_subtasks(id, USER).unwrap();
    assert_eq!(subs.len(), 2);
    // The new subtask lands one past the highest surviving rank.
    assert_eq!(subs[1].priority, 2);
}

#[test]
fn delete_last_subtask_clears_flag() {
    let mut store = Store::new();
    let id = new_task(&mut store, USER, "Solo", vec![3]);
    let sid = store
        .create_subtask(id, USER, CreateSubtaskRequest { title: "only".to_string() })
        .unwrap();
    assert!(store.get_all_tasks(USER)[0].has_subtasks);
    store.delete_subtask(id, sid, USER).unwrap();
    assert!(!store.get_all_tasks(USER)[0].has_subtasks);
}

#[test]
fn update_subtask_syncs_parent() {
    let mut store = Store::new();
    let id = store.create_task(
        USER,
        CreateTaskRequest {
            title: "Steps".to_string(),
            days: vec![3],
            subtasks: Some(vec!["solo".to_string()]),
        },
    );
    let sid = store.get_subtasks(id, USER).unwrap()[0].id;
    store
        .update_subtask(
            id,
            sid,
            USER,
            TODAY,
            UpdateSubtaskRequest { completed: Some(true), title: Some("renamed".to_string()) },
        )
        .unwrap();
    let subs = store.get_subtasks(id, USER).unwrap();
    assert_eq!(subs[0].title, "renamed");
    assert!(subs[0].completed);
    assert!(store.get_today_tasks(USER, TODAY)[0].completed);
}

#[test]
fn update_task_applies_optional_fields() {
    let mut store = Store::new();
    let id = new_task(&mut store, USER, "Before", vec![1]);
    store
        .update_task(
            id,
            USER,
            UpdateTaskRequest {
                title: Some("After".to_string()),
                days: Some(vec![2, 3]),
                active: Some(true),
                subtasks: Some(vec![
                    SubtaskUpdate { id: None, title: "fresh".to_string(), completed: None },
                    SubtaskUpdate { id: None, title: " ".to_string(), completed: None },
                ]),
            },
        )
        .unwrap();
    let all = store.get_all_tasks(USER);
    assert_eq!(all[0].title, "After");
    assert_eq!(all[0].days, vec![2, 3]);
    assert!(all[0].has_subtasks);
    let subs = store.get_subtasks(id, USER).unwrap();
    assert_eq!(subs.len(), 1);
    assert_eq!(subs[0].title, "fresh");
}

#[test]
fn days_are_normalized_to_iso_set() {
    let mut store = Store::new();
    let _ = new_task(&mut store, USER, "Odd days", vec![5, 3, 3, 9, 0]);
    let all = store.get_all_tasks(USER);
    assert_eq!(all[0].days, vec![3, 5]);
}

#[test]
fn toggle_archive_removes_from_daily_view() {
    let mut store = Store::new();
    let id = new_task(&mut store, USER, "Paused", vec![3]);
    store.toggle_archive(id, USER);
    assert_eq!(store.get_today_tasks(USER, TODAY).len(), 0);
    let all = store.get_all_tasks(USER);
    assert_eq!(all.len(), 1);
    assert!(!all[0].active);
    store.toggle_archive(id, USER);
    assert_eq!(store.get_today_tasks(USER, TODAY).len(), 1);
}

#[test]
fn ownership_failures_report_not_found() {
    let mut store = Store::new();
    let id = store.create_task(
        USER,
        CreateTaskRequest {
            title: "Mine".to_string(),
            days: vec![3],
            subtasks: Some(vec!["sub".to_string()]),
        },
    );
    let sid = store.get_subtasks(id, USER).unwrap()[0].id;

    assert_eq!(store.toggle_task(id, OTHER, TODAY), Err(EngineError::NotFound));
    assert_eq!(store.toggle_subtask(id, sid, OTHER, TODAY), Err(EngineError::NotFound));
    assert_eq!(store.get_subtasks(id, OTHER).unwrap_err(), EngineError::NotFound);
    assert_eq!(store.replace_subtasks(id, OTHER, &vec![]), Err(EngineError::NotFound));
    assert_eq!(
        store.create_subtask(id, OTHER, CreateSubtaskRequest { title: "no".to_string() }),
        Err(EngineError::NotFound)
    );
    assert_eq!(store.delete_subtask(id, sid, OTHER), Err(EngineError::NotFound));
    assert_eq!(
        store.toggle_subtask(id, sid + 1000, USER, TODAY),
        Err(EngineError::NotFound)
    );
    // The failed attempts left the state intact.
    assert_eq!(store.get_subtasks(id, USER).unwrap().len(), 1);

    // Deleting or archiving through the wrong user is a silent no-op.
    store.delete_task(id, OTHER);
    assert_eq!(store.get_all_tasks(USER).len(), 1);
}

#[test]
fn users_only_see_their_own_tasks() {
    let mut store = Store::new();
    let _mine = new_task(&mut store, USER, "Mine", vec![3]);
    let _theirs = new_task(&mut store, OTHER, "Theirs", vec![3]);
    assert_eq!(store.get_today_tasks(USER, TODAY).len(), 1);
    assert_eq!(store.get_all_tasks(OTHER).len(), 1);
    assert_eq!(store.get_all_tasks(OTHER)[0].title, "Theirs");
}

#[test]
fn due_view_is_ordered_by_priority_then_id() {
    let mut store = Store::new();
    let a = new_task(&mut store, USER, "a", vec![3]);
    let b = new_task(&mut store, USER, "b", vec![3]);
    let c = new_task(&mut store, USER, "c", vec![3]);
    store.update_task_priorities(USER, &vec![c, a, b], TODAY);
    let ids: Vec<u64> = store.get_today_tasks(USER, TODAY).iter().map(|t| t.id).collect();
    assert_eq!(ids, vec![c, a, b]);
}

#[test]
fn subtask_completion_percentage_truncates() {
    let mut store = Store::new();
    let id = store.create_task(
        USER,
        CreateTaskRequest {
            title: "Thirds".to_string(),
            days: vec![3],
            subtasks: Some(vec!["a".to_string(), "b".to_string(), "c".to_string()]),
        },
    );
    let sid = store.get_subtasks(id, USER).unwrap()[0].id;
    store.toggle_subtask(id, sid, USER, TODAY).unwrap();
    let due = store.get_today_tasks(USER, TODAY);
    assert_eq!(taskday::reads::subtask_completion(&due[0].subtasks), 33);
    assert_eq!(taskday::reads::subtask_completion(&vec![]), 0);
}
