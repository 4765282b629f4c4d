//! The engine's cross-operation guarantees, stated and proved once over the
//! same spec vocabulary the operations' own contracts use.

use vstd::prelude::*;

use crate::model::{
    drop_subs_of, kept_titles, lemma_drop_subs_not_tid, new_sub_rows, reorder_applied,
    sub_same_but_completed, toggle_subtask_applied, Store, Task,
};
use crate::reads::due_view_ok;

verus! {

/// Law: in the daily view, a task without subtasks shows exactly the stored
/// ledger value for (task, today) — false when no row exists.
pub proof fn lemma_due_completion_without_subtasks(s: Store, user: u128, today: u64, v: Task)
    requires
        due_view_ok(s, user, today, v),
        !s.has_subs(v.id),
    ensures
        v.completed == s.ledger_completed(v.id, today),
{
}

/// Law: in the daily view, a task with at least one subtask shows completed
/// exactly when every one of its subtasks is completed.
pub proof fn lemma_due_completion_with_subtasks(s: Store, user: u128, today: u64, v: Task)
    requires
        due_view_ok(s, user, today, v),
        s.has_subs(v.id),
    ensures
        v.completed == s.all_subs_completed(v.id),
{
}

/// Law: toggling a subtask twice in succession (no other writes between)
/// restores the whole subtask store, and after each of the two toggles the
/// parent's ledger row for today equals the all-subtasks-completed
/// predicate.
pub proof fn lemma_toggle_subtask_twice(
    s0: Store,
    s1: Store,
    s2: Store,
    task_id: u64,
    subtask_id: u64,
    today: u64,
)
    requires
        toggle_subtask_applied(s0, s1, task_id, subtask_id, today),
        toggle_subtask_applied(s1, s2, task_id, subtask_id, today),
    ensures
        s2.subtasks@ == s0.subtasks@,
        s1.ledger_completed(task_id, today) == s1.all_subs_completed(task_id),
        s2.ledger_completed(task_id, today) == s2.all_subs_completed(task_id),
{
    assert forall|j: int| 0 <= j < s0.subtasks@.len() implies #[trigger] s2.subtasks@[j]
        == s0.subtasks@[j] by {
        assert(sub_same_but_completed(
            s0.subtasks@[j],
            s1.subtasks@[j],
            if s0.subtasks@[j].id == subtask_id {
                !s0.subtasks@[j].completed
            } else {
                s0.subtasks@[j].completed
            },
        ));
        assert(sub_same_but_completed(
            s1.subtasks@[j],
            s2.subtasks@[j],
            if s1.subtasks@[j].id == subtask_id {
                !s1.subtasks@[j].completed
            } else {
                s1.subtasks@[j].completed
            },
        ));
    }
    assert(s2.subtasks@ =~= s0.subtasks@);
}

/// Law: reordering is idempotent — applying the same ordered id list twice
/// for the same day leaves the ledger exactly as the first application did,
/// at every key.
pub proof fn lemma_reorder_idempotent(s0: Store, s1: Store, s2: Store, ids: Seq<u64>, today: u64)
    requires
        reorder_applied(s0, s1, ids, today),
        reorder_applied(s1, s2, ids, today),
    ensures
        forall|t: u64, d: u64|
            #![trigger s2.has_record(t, d)]
            #![trigger s2.ledger_completed(t, d)]
            #![trigger s2.ledger_rank(t, d)]
            s2.has_record(t, d) == s1.has_record(t, d) && s2.ledger_completed(t, d)
                == s1.ledger_completed(t, d) && s2.ledger_rank(t, d) == s1.ledger_rank(t, d),
{
    assert forall|t: u64, d: u64|
        s2.has_record(t, d) == s1.has_record(t, d) && s2.ledger_completed(t, d)
            == s1.ledger_completed(t, d) && s2.ledger_rank(t, d) == s1.ledger_rank(t, d) by {
        if d == today && ids.contains(t) {
            assert(s1.has_record(t, d));
            assert(s2.has_record(t, d));
            assert(s1.ledger_completed(t, d) == s0.ledger_completed(t, d));
            assert(s2.ledger_completed(t, d) == s1.ledger_completed(t, d));
            assert(s1.ledger_rank(t, d) == crate::model::last_rank_of(ids, t) as u64);
            assert(s2.ledger_rank(t, d) == crate::model::last_rank_of(ids, t) as u64);
        } else {
            assert(s1.has_record(t, d) == s2.has_record(t, d));
            assert(s1.ledger_completed(t, d) == s2.ledger_completed(t, d));
            assert(s1.ledger_rank(t, d) == s2.ledger_rank(t, d));
        }
    }
}

/// Law: after a full subtask replacement the task's subtask rows are exactly
/// the non-blank titles in input order, ranked densely from 0, none of them
/// completed — and every other row in the store belongs to another task.
pub proof fn lemma_replace_shape(pre: Store, post: Store, task_id: u64, titles: Seq<String>)
    requires
        pre.next_subtask_id as int + kept_titles(titles).len() <= u64::MAX as int,
        post.subtasks@ == drop_subs_of(pre.subtasks@, task_id) + new_sub_rows(
            kept_titles(titles),
            task_id,
            pre.next_subtask_id,
        ),
    ensures
        ({
            let others = drop_subs_of(pre.subtasks@, task_id);
            let kept = kept_titles(titles);
            &&& post.subtasks@.len() == others.len() + kept.len()
            &&& forall|k: int|
                0 <= k < others.len() ==> (#[trigger] post.subtasks@[k]).task_id != task_id
            &&& forall|j: int|
                0 <= j < kept.len() ==> {
                    let row = #[trigger] post.subtasks@[others.len() + j];
                    &&& row.task_id == task_id
                    &&& row.title == kept[j]
                    &&& row.priority == j
                    &&& !row.completed
                }
        }),
{
    let others = drop_subs_of(pre.subtasks@, task_id);
    let kept = kept_titles(titles);
    let news = new_sub_rows(kept, task_id, pre.next_subtask_id);
    lemma_drop_subs_not_tid(pre.subtasks@, task_id);
    assert(post.subtasks@.len() == others.len() + news.len());
    assert forall|k: int| 0 <= k < others.len() implies (#[trigger] post.subtasks@[k]).task_id
        != task_id by {
        assert((others + news)[k] == others[k]);
        assert(post.subtasks@[k] == others[k]);
    }
    assert forall|j: int| 0 <= j < kept.len() implies ((#[trigger] post.subtasks@[others.len()
        + j]).task_id == task_id && post.subtasks@[others.len() + j].title == kept[j]
        && post.subtasks@[others.len() + j].priority == j && !post.subtasks@[others.len()
        + j].completed) by {
        assert((others + news)[others.len() + j] == news[j]);
        assert(post.subtasks@[others.len() + j] == news[j]);
    }
}

} // verus!
