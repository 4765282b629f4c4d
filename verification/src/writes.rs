//! The write path of the engine: completion toggles with parent/child
//! propagation, subtask CRUD, task CRUD and daily reordering.
//!
//! Every mutation first verifies ownership (the task exists and belongs to
//! the requesting user) and performs no writes when that fails. Each
//! operation mutates the store in place; callers that need all-or-nothing
//! behaviour against a crash apply it to a copy and swap.

use vstd::prelude::*;
use vstd::pervasive::VecAdditionalExecFns;

use crate::model::{
    drop_subs_of, kept_titles, lemma_drop_subs_distinct, lemma_drop_subs_keeps, lemma_kept_step,
    lemma_drop_subs_none, lemma_new_rows_push, new_sub_rows, normalized_days, sub_update_titles,
    task_row_edited, toggle_subtask_applied, CreateTaskRequest, UpdateTaskRequest,
    last_rank_of, lemma_last_rank_push, lemma_max_rank_bound, max_rank_of, reorder_applied,
    ledger_agree_except, rec_match, sub_same_but_completed, sub_edited, task_same_but_flag,
    Completion, CreateSubtaskRequest, EngineError, Store, Subtask, TaskRec, UpdateSubtaskRequest,
};
use crate::store::{copy_days, copy_subtask, is_blank_exec, normalize_days, lemma_ledger_same, lemma_subs_same, lemma_rec_at, lemma_sub_at, lemma_task_at};

verus! {

/// A subtask edit that keeps every id, owner and rank in place (only titles
/// and completion flags may differ) preserves well-formedness and leaves the
/// subtask-existence views unchanged.
proof fn lemma_subs_edit_wf(pre: Store, post: Store)
    requires
        pre.wf(),
        post.tasks@ == pre.tasks@,
        post.completions@ == pre.completions@,
        post.next_task_id == pre.next_task_id,
        post.next_subtask_id == pre.next_subtask_id,
        post.subtasks@.len() == pre.subtasks@.len(),
        forall|j: int|
            0 <= j < pre.subtasks@.len()
                ==> (#[trigger] post.subtasks@[j]).id == pre.subtasks@[j].id
                    && post.subtasks@[j].task_id == pre.subtasks@[j].task_id
                    && post.subtasks@[j].priority == pre.subtasks@[j].priority,
    ensures
        post.wf(),
        forall|x: u64| #[trigger] post.has_subs(x) == pre.has_subs(x),
        forall|x: u64| #[trigger] post.has_sub_id(x) == pre.has_sub_id(x),
{
    assert forall|x: u64| #[trigger] post.has_subs(x) == pre.has_subs(x) by {
        if pre.has_subs(x) {
            let i = choose|i: int|
                0 <= i < pre.subtasks@.len() && (#[trigger] pre.subtasks@[i]).task_id == x;
            assert(post.subtasks@[i].task_id == x);
        }
        if post.has_subs(x) {
            let i = choose|i: int|
                0 <= i < post.subtasks@.len() && (#[trigger] post.subtasks@[i]).task_id == x;
            assert(pre.subtasks@[i].task_id == x);
        }
    }
    assert forall|x: u64| #[trigger] post.has_sub_id(x) == pre.has_sub_id(x) by {
        if pre.has_sub_id(x) {
            let i = choose|i: int|
                0 <= i < pre.subtasks@.len() && (#[trigger] pre.subtasks@[i]).id == x;
            assert(post.subtasks@[i].id == x);
        }
        if post.has_sub_id(x) {
            let i = choose|i: int|
                0 <= i < post.subtasks@.len() && (#[trigger] post.subtasks@[i]).id == x;
            assert(pre.subtasks@[i].id == x);
        }
    }
}

/// After editing the ledger row at `i` in place (same key), the ledger reads
/// the new row at that key and is untouched elsewhere.
proof fn lemma_ledger_update(pre: Store, post: Store, i: int, t: u64, d: u64)
    requires
        pre.wf(),
        post.tasks@ == pre.tasks@,
        post.subtasks@ == pre.subtasks@,
        post.next_task_id == pre.next_task_id,
        post.next_subtask_id == pre.next_subtask_id,
        0 <= i < pre.completions@.len(),
        rec_match(pre.completions@[i], t, d),
        rec_match(post.completions@[i], t, d),
        post.completions@ == pre.completions@.update(i, post.completions@[i]),
    ensures
        post.wf(),
        post.has_record(t, d),
        post.spec_record(t, d) == post.completions@[i],
        pre.has_record(t, d),
        pre.spec_record(t, d) == pre.completions@[i],
        ledger_agree_except(pre, post, t, d),
{
    assert(post.completions@.len() == pre.completions@.len());
    assert forall|k: int| 0 <= k < post.completions@.len() implies
        (#[trigger] post.completions@[k]).task_id == pre.completions@[k].task_id
            && post.completions@[k].date == pre.completions@[k].date by {
        if k != i {
            assert(post.completions@[k] == pre.completions@[k]);
        }
    }
    assert(post.wf());
    lemma_rec_at(post, i);
    lemma_rec_at(pre, i);
    assert forall|t2: u64, d2: u64| !(t2 == t && d2 == d) implies
        pre.has_record(t2, d2) == post.has_record(t2, d2)
            && pre.ledger_completed(t2, d2) == post.ledger_completed(t2, d2)
            && pre.ledger_rank(t2, d2) == post.ledger_rank(t2, d2) by {
        if pre.has_record(t2, d2) {
            let j = pre.rec_index(t2, d2);
            assert(rec_match(pre.completions@[j], t2, d2));
            assert(j != i);
            assert(post.completions@[j] == pre.completions@[j]);
            lemma_rec_at(pre, j);
            lemma_rec_at(post, j);
        }
        if post.has_record(t2, d2) {
            let j = post.rec_index(t2, d2);
            assert(rec_match(post.completions@[j], t2, d2));
            assert(j != i);
            assert(post.completions@[j] == pre.completions@[j]);
            lemma_rec_at(pre, j);
            lemma_rec_at(post, j);
        }
    }
}

/// After appending a row for a key that had none, the ledger reads the new
/// row at that key and is untouched elsewhere.
proof fn lemma_ledger_push(pre: Store, post: Store, t: u64, d: u64)
    requires
        pre.wf(),
        post.tasks@ == pre.tasks@,
        post.subtasks@ == pre.subtasks@,
        post.next_task_id == pre.next_task_id,
        post.next_subtask_id == pre.next_subtask_id,
        !pre.has_record(t, d),
        post.completions@.len() == pre.completions@.len() + 1,
        rec_match(post.completions@[pre.completions@.len() as int], t, d),
        post.completions@ == pre.completions@.push(post.completions@[pre.completions@.len() as int]),
    ensures
        post.wf(),
        post.has_record(t, d),
        post.spec_record(t, d) == post.completions@[pre.completions@.len() as int],
        ledger_agree_except(pre, post, t, d),
{
    let n = pre.completions@.len() as int;
    assert forall|a: int, b: int| 0 <= a < b < post.completions@.len() implies
        !((#[trigger] post.completions@[a]).task_id == (#[trigger] post.completions@[b]).task_id
            && post.completions@[a].date == post.completions@[b].date) by {
        if b < n {
            assert(post.completions@[a] == pre.completions@[a]);
            assert(post.completions@[b] == pre.completions@[b]);
        } else {
            assert(b == n);
            assert(post.completions@[a] == pre.completions@[a]);
            if post.completions@[a].task_id == t && post.completions@[a].date == d {
                assert(rec_match(pre.completions@[a], t, d));
                assert(pre.has_record(t, d));
            }
        }
    }
    assert(post.wf());
    lemma_rec_at(post, n);
    assert forall|t2: u64, d2: u64| !(t2 == t && d2 == d) implies
        pre.has_record(t2, d2) == post.has_record(t2, d2)
            && pre.ledger_completed(t2, d2) == post.ledger_completed(t2, d2)
            && pre.ledger_rank(t2, d2) == post.ledger_rank(t2, d2) by {
        if pre.has_record(t2, d2) {
            let j = pre.rec_index(t2, d2);
            assert(rec_match(pre.completions@[j], t2, d2));
            assert(post.completions@[j] == pre.completions@[j]);
            lemma_rec_at(pre, j);
            lemma_rec_at(post, j);
        }
        if post.has_record(t2, d2) {
            let j = post.rec_index(t2, d2);
            assert(rec_match(post.completions@[j], t2, d2));
            assert(j != n);
            assert(post.completions@[j] == pre.completions@[j]);
            lemma_rec_at(pre, j);
            lemma_rec_at(post, j);
        }
    }
}

impl Store {
    /// Upsert the stored completion value for (`t`, `d`): overwrite the value
    /// of the existing row, keeping its rank, or insert a row with rank 0.
    pub(crate) fn upsert_completed(&mut self, t: u64, d: u64, v: bool)
        requires
            old(self).wf(),
        ensures
            final(self).wf(),
            final(self).tasks@ == old(self).tasks@,
            final(self).subtasks@ == old(self).subtasks@,
            final(self).next_task_id == old(self).next_task_id,
            final(self).next_subtask_id == old(self).next_subtask_id,
            final(self).has_record(t, d),
            final(self).ledger_completed(t, d) == v,
            final(self).ledger_rank(t, d) == old(self).ledger_rank(t, d),
            ledger_agree_except(*old(self), *final(self), t, d),
    {
        match self.find_rec_idx(t, d) {
            Some(i) => {
                let c = self.completions[i];
                self.completions.set(i, Completion { task_id: c.task_id, date: c.date, completed: v, priority: c.priority });
                proof {
                    lemma_ledger_update(*old(self), *self, i as int, t, d);
                }
            }
            None => {
                self.completions.push(Completion { task_id: t, date: d, completed: v, priority: 0 });
                proof {
                    lemma_ledger_push(*old(self), *self, t, d);
                }
            }
        }
    }

    /// Set the completion flag of every subtask of task `tid` to `v`,
    /// touching nothing else.
    fn set_subs_of(&mut self, tid: u64, v: bool)
        requires
            old(self).wf(),
        ensures
            final(self).wf(),
            final(self).tasks@ == old(self).tasks@,
            final(self).completions@ == old(self).completions@,
            final(self).next_task_id == old(self).next_task_id,
            final(self).next_subtask_id == old(self).next_subtask_id,
            final(self).subtasks@.len() == old(self).subtasks@.len(),
            forall|j: int|
                0 <= j < old(self).subtasks@.len()
                    ==> sub_same_but_completed(
                        old(self).subtasks@[j],
                        #[trigger] final(self).subtasks@[j],
                        if old(self).subtasks@[j].task_id == tid {
                            v
                        } else {
                            old(self).subtasks@[j].completed
                        },
                    ),
    {
        let n = self.subtasks.len();
        let mut i: usize = 0;
        while i < n
            invariant
                i <= n,
                n == self.subtasks@.len(),
                self.tasks@ == old(self).tasks@,
                self.completions@ == old(self).completions@,
                self.next_task_id == old(self).next_task_id,
                self.next_subtask_id == old(self).next_subtask_id,
                self.subtasks@.len() == old(self).subtasks@.len(),
                forall|j: int| i <= j < n ==> #[trigger] self.subtasks@[j] == old(self).subtasks@[j],
                forall|j: int|
                    0 <= j < i
                        ==> sub_same_but_completed(
                            old(self).subtasks@[j],
                            #[trigger] self.subtasks@[j],
                            if old(self).subtasks@[j].task_id == tid {
                                v
                            } else {
                                old(self).subtasks@[j].completed
                            },
                        ),
            decreases n - i,
        {
            if self.subtasks[i].task_id == tid {
                let sid = self.subtasks[i].id;
                let pr = self.subtasks[i].priority;
                let ti = self.subtasks[i].title.clone();
                self.subtasks.set(
                    i,
                    Subtask { id: sid, task_id: tid, title: ti, completed: v, priority: pr },
                );
            }
            i += 1;
        }
        proof {
            lemma_subs_edit_wf(*old(self), *self);
        }
    }

    /// Toggle a task's completion for `today`.
    ///
    /// Without subtasks this negates the stored ledger value, creating the
    /// row as `true` on first toggle. With subtasks it negates the same
    /// baseline, writes it to the ledger, and cascades the new value to every
    /// subtask (a bulk mark-all/unmark-all). The daily rank is kept.
    pub fn toggle_task(&mut self, id: u64, user: u128, today: u64) -> (r: Result<(), EngineError>)
        requires
            old(self).wf(),
        ensures
            final(self).wf(),
            r is Err <==> !old(self).owned_task(id, user),
            r is Err ==> r == Result::<(), EngineError>::Err(EngineError::NotFound)
                && final(self).same_state(*old(self)),
            r is Ok ==> {
                &&& final(self).tasks@ == old(self).tasks@
                &&& final(self).next_task_id == old(self).next_task_id
                &&& final(self).next_subtask_id == old(self).next_subtask_id
                &&& final(self).has_record(id, today)
                &&& final(self).ledger_completed(id, today) == !old(self).ledger_completed(id, today)
                &&& final(self).ledger_rank(id, today) == old(self).ledger_rank(id, today)
                &&& ledger_agree_except(*old(self), *final(self), id, today)
                &&& final(self).subtasks@.len() == old(self).subtasks@.len()
                &&& forall|j: int|
                    0 <= j < old(self).subtasks@.len()
                        ==> sub_same_but_completed(
                            old(self).subtasks@[j],
                            #[trigger] final(self).subtasks@[j],
                            if old(self).has_subs(id) && old(self).subtasks@[j].task_id == id {
                                !old(self).ledger_completed(id, today)
                            } else {
                                old(self).subtasks@[j].completed
                            },
                        )
            },
    {
        let ti = match self.find_task_idx(id) {
            Some(i) => i,
            None => {
                return Err(EngineError::NotFound);
            }
        };
        proof {
            lemma_task_at(*self, ti as int);
        }
        if self.tasks[ti].user != user {
            return Err(EngineError::NotFound);
        }
        let cascade = self.tasks[ti].has_subtasks;
        let newv = !self.read_ledger_completed(id, today);
        self.upsert_completed(id, today, newv);
        let ghost mid = *self;
        if cascade {
            self.set_subs_of(id, newv);
            proof {
                lemma_ledger_same(mid, *self);
                assert forall|t2: u64, d2: u64| !(t2 == id && d2 == today) implies
                    old(self).has_record(t2, d2) == self.has_record(t2, d2) && old(self)
                        .ledger_completed(t2, d2) == self.ledger_completed(t2, d2) && old(self)
                        .ledger_rank(t2, d2) == self.ledger_rank(t2, d2) by {
                    assert(mid.has_record(t2, d2) == self.has_record(t2, d2));
                    assert(mid.ledger_completed(t2, d2) == self.ledger_completed(t2, d2));
                    assert(mid.ledger_rank(t2, d2) == self.ledger_rank(t2, d2));
                    assert(old(self).has_record(t2, d2) == mid.has_record(t2, d2));
                    assert(old(self).ledger_completed(t2, d2) == mid.ledger_completed(t2, d2));
                    assert(old(self).ledger_rank(t2, d2) == mid.ledger_rank(t2, d2));
                }
                assert(self.has_record(id, today) == mid.has_record(id, today));
                assert(self.ledger_completed(id, today) == mid.ledger_completed(id, today));
                assert(self.ledger_rank(id, today) == mid.ledger_rank(id, today));
            }
        }
        Ok(())
    }

    /// Toggle one subtask's completion flag, then resynchronise the parent's
    /// ledger row for `today` to "all subtasks completed" (an absolute set,
    /// not a negation). Both writes happen or neither does.
    pub fn toggle_subtask(
        &mut self,
        task_id: u64,
        subtask_id: u64,
        user: u128,
        today: u64,
    ) -> (r: Result<(), EngineError>)
        requires
            old(self).wf(),
        ensures
            final(self).wf(),
            r is Err <==> !(old(self).owned_task(task_id, user) && old(self).has_sub_id(subtask_id)
                && old(self).spec_sub(subtask_id).task_id == task_id),
            r is Err ==> r == Result::<(), EngineError>::Err(EngineError::NotFound)
                && final(self).same_state(*old(self)),
            r is Ok ==> toggle_subtask_applied(
                *old(self),
                *final(self),
                task_id,
                subtask_id,
                today,
            ),
    {
        let ti = match self.find_task_idx(task_id) {
            Some(i) => i,
            None => {
                return Err(EngineError::NotFound);
            }
        };
        proof {
            lemma_task_at(*self, ti as int);
        }
        if self.tasks[ti].user != user {
            return Err(EngineError::NotFound);
        }
        let si = match self.find_sub_idx(subtask_id) {
            Some(i) => i,
            None => {
                return Err(EngineError::NotFound);
            }
        };
        proof {
            lemma_sub_at(*self, si as int);
        }
        if self.subtasks[si].task_id != task_id {
            return Err(EngineError::NotFound);
        }
        let sid = self.subtasks[si].id;
        let pr = self.subtasks[si].priority;
        let flipped = !self.subtasks[si].completed;
        let title = self.subtasks[si].title.clone();
        self.subtasks.set(
            si,
            Subtask { id: sid, task_id, title, completed: flipped, priority: pr },
        );
        proof {
            lemma_subs_edit_wf(*old(self), *self);
            lemma_ledger_same(*old(self), *self);
        }
        let ghost mid = *self;
        let all = self.all_subs_completed_exec(task_id);
        self.upsert_completed(task_id, today, all);
        proof {
            assert forall|t2: u64, d2: u64| !(t2 == task_id && d2 == today) implies
                old(self).has_record(t2, d2) == self.has_record(t2, d2) && old(self)
                    .ledger_completed(t2, d2) == self.ledger_completed(t2, d2) && old(self)
                    .ledger_rank(t2, d2) == self.ledger_rank(t2, d2) by {
                assert(old(self).has_record(t2, d2) == mid.has_record(t2, d2));
                assert(old(self).ledger_completed(t2, d2) == mid.ledger_completed(t2, d2));
                assert(old(self).ledger_rank(t2, d2) == mid.ledger_rank(t2, d2));
                assert(mid.has_record(t2, d2) == self.has_record(t2, d2));
                assert(mid.ledger_completed(t2, d2) == self.ledger_completed(t2, d2));
                assert(mid.ledger_rank(t2, d2) == self.ledger_rank(t2, d2));
            }
            assert(mid.ledger_rank(task_id, today) == old(self).ledger_rank(task_id, today));
        }
        Ok(())
    }

    /// Apply optional edits to one subtask. When a completion value is given,
    /// the parent's ledger row for `today` is resynchronised to "all subtasks
    /// completed", exactly as a toggle does.
    pub fn update_subtask(
        &mut self,
        task_id: u64,
        subtask_id: u64,
        user: u128,
        today: u64,
        req: UpdateSubtaskRequest,
    ) -> (r: Result<(), EngineError>)
        requires
            old(self).wf(),
        ensures
            final(self).wf(),
            r is Err <==> !(old(self).owned_task(task_id, user) && old(self).has_sub_id(subtask_id)
                && old(self).spec_sub(subtask_id).task_id == task_id),
            r is Err ==> r == Result::<(), EngineError>::Err(EngineError::NotFound)
                && final(self).same_state(*old(self)),
            r is Ok ==> {
                &&& final(self).tasks@ == old(self).tasks@
                &&& final(self).next_task_id == old(self).next_task_id
                &&& final(self).next_subtask_id == old(self).next_subtask_id
                &&& final(self).subtasks@.len() == old(self).subtasks@.len()
                &&& forall|j: int|
                    0 <= j < old(self).subtasks@.len() && old(self).subtasks@[j].id != subtask_id
                        ==> #[trigger] final(self).subtasks@[j] == old(self).subtasks@[j]
                &&& forall|j: int|
                    0 <= j < old(self).subtasks@.len() && old(self).subtasks@[j].id == subtask_id
                        ==> sub_edited(
                            old(self).subtasks@[j],
                            #[trigger] final(self).subtasks@[j],
                            req.title,
                            req.completed,
                        )
                &&& match req.completed {
                    Some(_) => {
                        &&& final(self).has_record(task_id, today)
                        &&& final(self).ledger_completed(task_id, today)
                            == final(self).all_subs_completed(task_id)
                        &&& final(self).ledger_rank(task_id, today)
                            == old(self).ledger_rank(task_id, today)
                        &&& ledger_agree_except(*old(self), *final(self), task_id, today)
                    },
                    None => final(self).completions@ == old(self).completions@,
                }
            },
    {
        let ti = match self.find_task_idx(task_id) {
            Some(i) => i,
            None => {
                return Err(EngineError::NotFound);
            }
        };
        proof {
            lemma_task_at(*self, ti as int);
        }
        if self.tasks[ti].user != user {
            return Err(EngineError::NotFound);
        }
        let si = match self.find_sub_idx(subtask_id) {
            Some(i) => i,
            None => {
                return Err(EngineError::NotFound);
            }
        };
        proof {
            lemma_sub_at(*self, si as int);
        }
        if self.subtasks[si].task_id != task_id {
            return Err(EngineError::NotFound);
        }
        let sid = self.subtasks[si].id;
        let pr = self.subtasks[si].priority;
        let sync = req.completed.is_some();
        let newc = match req.completed {
            Some(v) => v,
            None => self.subtasks[si].completed,
        };
        let newt = match req.title {
            Some(t) => t,
            None => self.subtasks[si].title.clone(),
        };
        self.subtasks.set(
            si,
            Subtask { id: sid, task_id, title: newt, completed: newc, priority: pr },
        );
        proof {
            lemma_subs_edit_wf(*old(self), *self);
            lemma_ledger_same(*old(self), *self);
        }
        let ghost mid = *self;
        if sync {
            let all = self.all_subs_completed_exec(task_id);
            self.upsert_completed(task_id, today, all);
            proof {
                assert forall|t2: u64, d2: u64| !(t2 == task_id && d2 == today) implies
                    old(self).has_record(t2, d2) == self.has_record(t2, d2) && old(self)
                        .ledger_completed(t2, d2) == self.ledger_completed(t2, d2) && old(self)
                        .ledger_rank(t2, d2) == self.ledger_rank(t2, d2) by {
                    assert(old(self).has_record(t2, d2) == mid.has_record(t2, d2));
                    assert(old(self).ledger_completed(t2, d2) == mid.ledger_completed(t2, d2));
                    assert(old(self).ledger_rank(t2, d2) == mid.ledger_rank(t2, d2));
                    assert(mid.has_record(t2, d2) == self.has_record(t2, d2));
                    assert(mid.ledger_completed(t2, d2) == self.ledger_completed(t2, d2));
                    assert(mid.ledger_rank(t2, d2) == self.ledger_rank(t2, d2));
                }
                assert(mid.ledger_rank(task_id, today) == old(self).ledger_rank(task_id, today));
            }
        }
        Ok(())
    }

    /// Upsert the stored daily rank for (`t`, `d`): overwrite the rank of the
    /// existing row, keeping its value, or insert a not-completed row.
    pub(crate) fn upsert_rank(&mut self, t: u64, d: u64, p: u64)
        requires
            old(self).wf(),
        ensures
            final(self).wf(),
            final(self).tasks@ == old(self).tasks@,
            final(self).subtasks@ == old(self).subtasks@,
            final(self).next_task_id == old(self).next_task_id,
            final(self).next_subtask_id == old(self).next_subtask_id,
            final(self).has_record(t, d),
            final(self).ledger_rank(t, d) == p,
            final(self).ledger_completed(t, d) == old(self).ledger_completed(t, d),
            ledger_agree_except(*old(self), *final(self), t, d),
    {
        match self.find_rec_idx(t, d) {
            Some(i) => {
                let c = self.completions[i];
                self.completions.set(i, Completion { task_id: c.task_id, date: c.date, completed: c.completed, priority: p });
                proof {
                    lemma_ledger_update(*old(self), *self, i as int, t, d);
                }
            }
            None => {
                self.completions.push(Completion { task_id: t, date: d, completed: false, priority: p });
                proof {
                    lemma_ledger_push(*old(self), *self, t, d);
                }
            }
        }
    }

    /// Replace the task row at index `ti`, keeping its identity and owner.
    fn set_task_row(
        &mut self,
        ti: usize,
        title: String,
        active: bool,
        deleted: bool,
        flag: bool,
        days: Vec<u8>,
    )
        requires
            ti < old(self).tasks@.len(),
        ensures
            final(self).tasks@.len() == old(self).tasks@.len(),
            forall|j: int|
                0 <= j < old(self).tasks@.len() && j != ti
                    ==> #[trigger] final(self).tasks@[j] == old(self).tasks@[j],
            task_row_edited(
                old(self).tasks@[ti as int],
                final(self).tasks@[ti as int],
                title,
                active,
                deleted,
                flag,
                days@,
            ),
            final(self).subtasks@ == old(self).subtasks@,
            final(self).completions@ == old(self).completions@,
            final(self).next_task_id == old(self).next_task_id,
            final(self).next_subtask_id == old(self).next_subtask_id,
    {
        let id = self.tasks[ti].id;
        let owner = self.tasks[ti].user;
        self.tasks.set(
            ti,
            TaskRec { id, user: owner, title, active, deleted, has_subtasks: flag, days },
        );
    }

    /// Replace the whole subtask set of a task by the given titles: every
    /// prior subtask row of the task is removed and the non-blank titles are
    /// re-inserted in order with ranks dense from 0 and fresh ids. The
    /// parent's `has_subtasks` flag follows whether any title survived. The
    /// ledger is not touched. All-or-nothing by construction.
    pub fn replace_subtasks(&mut self, task_id: u64, user: u128, titles: &Vec<String>) -> (r:
        Result<(), EngineError>)
        requires
            old(self).wf(),
            old(self).next_subtask_id as int + titles@.len() <= u64::MAX as int,
        ensures
            final(self).wf(),
            r is Err <==> !old(self).owned_task(task_id, user),
            r is Err ==> r == Result::<(), EngineError>::Err(EngineError::NotFound)
                && final(self).same_state(*old(self)),
            r is Ok ==> {
                &&& final(self).subtasks@ == drop_subs_of(old(self).subtasks@, task_id)
                    + new_sub_rows(kept_titles(titles@), task_id, old(self).next_subtask_id)
                &&& final(self).next_subtask_id == old(self).next_subtask_id + kept_titles(
                    titles@,
                ).len()
                &&& final(self).next_task_id == old(self).next_task_id
                &&& final(self).completions@ == old(self).completions@
                &&& final(self).has_subs(task_id) == (kept_titles(titles@).len() > 0)
                &&& final(self).tasks@.len() == old(self).tasks@.len()
                &&& forall|j: int|
                    0 <= j < old(self).tasks@.len() && j != old(self).task_index(task_id)
                        ==> #[trigger] final(self).tasks@[j] == old(self).tasks@[j]
                &&& task_same_but_flag(
                    old(self).tasks@[old(self).task_index(task_id)],
                    final(self).tasks@[old(self).task_index(task_id)],
                    kept_titles(titles@).len() > 0,
                )
            },
    {
        let ti = match self.find_task_idx(task_id) {
            Some(i) => i,
            None => {
                return Err(EngineError::NotFound);
            }
        };
        proof {
            lemma_task_at(*self, ti as int);
        }
        if self.tasks[ti].user != user {
            return Err(EngineError::NotFound);
        }
        let mut rebuilt: Vec<Subtask> = Vec::new();
        let nsubs = self.subtasks.len();
        let mut i: usize = 0;
        while i < nsubs
            invariant
                i <= nsubs,
                nsubs == self.subtasks@.len(),
                self.wf(),
                rebuilt@ == drop_subs_of(self.subtasks@.subrange(0, i as int), task_id),
                forall|k: int|
                    0 <= k < rebuilt@.len() ==> exists|j: int|
                        0 <= j < i && self.subtasks@[j] == #[trigger] rebuilt@[k],
                forall|k: int| 0 <= k < rebuilt@.len() ==> (#[trigger] rebuilt@[k]).task_id != task_id,
            decreases nsubs - i,
        {
            let ghost pre = self.subtasks@.subrange(0, i as int);
            proof {
                assert(self.subtasks@.subrange(0, i as int + 1) =~= pre.push(
                    self.subtasks@[i as int],
                ));
                assert(self.subtasks@.subrange(0, i as int + 1).drop_last() =~= pre);
            }
            if self.subtasks[i].task_id != task_id {
                rebuilt.push(copy_subtask(&self.subtasks[i]));
            }
            i += 1;
        }
        proof {
            assert(self.subtasks@.subrange(0, nsubs as int) =~= self.subtasks@);
        }
        let ghost others = drop_subs_of(self.subtasks@, task_id);
        let base = self.next_subtask_id;
        let ntitles = titles.len();
        let mut rank: u64 = 0;
        let mut m: usize = 0;
        while m < ntitles
            invariant
                m <= ntitles,
                ntitles == titles@.len(),
                self.wf(),
                base == self.next_subtask_id,
                base as int + titles@.len() <= u64::MAX as int,
                others == drop_subs_of(self.subtasks@, task_id),
                rank == kept_titles(titles@.subrange(0, m as int)).len(),
                rank <= m,
                rebuilt@ == others + new_sub_rows(
                    kept_titles(titles@.subrange(0, m as int)),
                    task_id,
                    base,
                ),
                forall|k: int|
                    0 <= k < others.len() ==> exists|j: int|
                        0 <= j < self.subtasks@.len() && self.subtasks@[j] == #[trigger] others[k],
                forall|k: int| 0 <= k < others.len() ==> (#[trigger] others[k]).task_id != task_id,
            decreases ntitles - m,
        {
            let ghost prefix = titles@.subrange(0, m as int);
            proof {
                assert(titles@.subrange(0, m as int + 1) =~= prefix.push(titles@[m as int]));
                lemma_kept_step(prefix, titles@[m as int]);
            }
            let t = titles[m].clone();
            if !is_blank_exec(t.as_str()) {
                proof {
                    lemma_new_rows_push(kept_titles(prefix), titles@[m as int], task_id, base);
                }
                rebuilt.push(Subtask {
                    id: base + rank,
                    task_id,
                    title: t,
                    completed: false,
                    priority: rank,
                });
                rank = rank + 1;
            }
            m += 1;
        }
        proof {
            assert(titles@.subrange(0, ntitles as int) =~= titles@);
        }
        let ghost news = new_sub_rows(kept_titles(titles@), task_id, base);
        self.subtasks = rebuilt;
        self.next_subtask_id = base + rank;
        self.set_task_flag(ti, rank > 0);
        proof {
            let pre = *old(self);
            let post = *self;
            let no = others.len() as int;
            let total = post.subtasks@.len() as int;
            assert(post.subtasks@ == others + news);
            assert(total == no + news.len());
            assert forall|k: int| no <= k < total implies #[trigger] post.subtasks@[k]
                == news[k - no] by {}
            assert forall|k: int| 0 <= k < no implies #[trigger] post.subtasks@[k]
                == others[k] by {}
            // ids and ranks of survivors are bounded by the old counter
            assert forall|k: int| 0 <= k < no implies (#[trigger] post.subtasks@[k]).id < base
                && post.subtasks@[k].priority < base && post.subtasks@[k].task_id
                < post.next_task_id && post.subtasks@[k].task_id != task_id by {
                let j = choose|j: int|
                    0 <= j < pre.subtasks@.len() && pre.subtasks@[j] == others[k];
                assert(pre.subtasks@[j].id < pre.next_subtask_id);
            }
            // distinct ids among survivors
            lemma_drop_subs_distinct(pre.subtasks@, task_id);
            assert forall|a: int, b: int| 0 <= a < b < no implies
                (#[trigger] post.subtasks@[a]).id != (#[trigger] post.subtasks@[b]).id by {
                assert(post.subtasks@[a] == others[a]);
                assert(post.subtasks@[b] == others[b]);
            }
            assert forall|a: int, b: int| 0 <= a < b < total implies
                (#[trigger] post.subtasks@[a]).id != (#[trigger] post.subtasks@[b]).id by {
                if b >= no {
                    assert(post.subtasks@[b] == news[b - no]);
                    assert(post.subtasks@[b].id == base + (b - no));
                    if a >= no {
                        assert(post.subtasks@[a] == news[a - no]);
                    } else {
                        assert(post.subtasks@[a].id < base);
                    }
                }
            }
            // wf bounds for the new counter
            assert forall|k: int| 0 <= k < total implies ((#[trigger] post.subtasks@[k]).id
                < post.next_subtask_id && post.subtasks@[k].priority < post.next_subtask_id
                && post.subtasks@[k].task_id < post.next_task_id) by {
                if k >= no {
                    assert(post.subtasks@[k] == news[k - no]);
                    assert(pre.tasks@[ti as int].id == task_id);
                }
            }
            // subtask existence per task
            assert forall|x: u64| x != task_id implies #[trigger] post.has_subs(x) == pre.has_subs(
                x,
            ) by {
                if pre.has_subs(x) {
                    let j = choose|j: int|
                        0 <= j < pre.subtasks@.len() && (#[trigger] pre.subtasks@[j]).task_id == x;
                    lemma_drop_subs_keeps(pre.subtasks@, task_id, j);
                    let k = choose|k: int|
                        0 <= k < others.len() && others[k] == pre.subtasks@[j];
                    assert(post.subtasks@[k].task_id == x);
                }
                if post.has_subs(x) {
                    let k = choose|k: int|
                        0 <= k < post.subtasks@.len() && (#[trigger] post.subtasks@[k]).task_id
                            == x;
                    assert(k < no);
                    let j = choose|j: int|
                        0 <= j < pre.subtasks@.len() && pre.subtasks@[j] == others[k];
                    assert(pre.subtasks@[j].task_id == x);
                }
            }
            assert(post.has_subs(task_id) == (news.len() > 0)) by {
                if news.len() > 0 {
                    assert(post.subtasks@[no].task_id == task_id);
                }
                if post.has_subs(task_id) {
                    let k = choose|k: int|
                        0 <= k < post.subtasks@.len() && (#[trigger] post.subtasks@[k]).task_id
                            == task_id;
                    assert(k >= no);
                }
            }
            assert forall|j: int| 0 <= j < post.tasks@.len() implies
                (#[trigger] post.tasks@[j]).has_subtasks == post.has_subs(post.tasks@[j].id) by {
                if j == ti as int {
                    assert(post.tasks@[j].id == task_id);
                } else {
                    assert(post.tasks@[j] == pre.tasks@[j]);
                    assert(pre.tasks@[j].id != task_id);
                }
            }
            assert(post.wf());
        }
        Ok(())
    }

    /// Overwrite the `has_subtasks` flag of the task row at index `ti`.
    fn set_task_flag(&mut self, ti: usize, b: bool)
        requires
            ti < old(self).tasks@.len(),
        ensures
            final(self).tasks@.len() == old(self).tasks@.len(),
            forall|j: int|
                0 <= j < old(self).tasks@.len() && j != ti
                    ==> #[trigger] final(self).tasks@[j] == old(self).tasks@[j],
            task_same_but_flag(old(self).tasks@[ti as int], final(self).tasks@[ti as int], b),
            final(self).subtasks@ == old(self).subtasks@,
            final(self).completions@ == old(self).completions@,
            final(self).next_task_id == old(self).next_task_id,
            final(self).next_subtask_id == old(self).next_subtask_id,
    {
        let id = self.tasks[ti].id;
        let owner = self.tasks[ti].user;
        let active = self.tasks[ti].active;
        let deleted = self.tasks[ti].deleted;
        let title = self.tasks[ti].title.clone();
        let days = copy_days(&self.tasks[ti].days);
        self.tasks.set(
            ti,
            TaskRec { id, user: owner, title, active, deleted, has_subtasks: b, days },
        );
    }

    /// The rank a newly appended subtask of `task_id` gets: one past the
    /// highest existing rank, or 0 with none.
    fn next_rank(&self, task_id: u64) -> (r: u64)
        requires
            self.wf(),
            self.next_subtask_id < u64::MAX,
        ensures
            r == (max_rank_of(self.subtasks@, task_id) + 1) as u64,
            r <= self.next_subtask_id,
    {
        proof {
            lemma_max_rank_bound(self.subtasks@, task_id, self.next_subtask_id);
        }
        let mut any = false;
        let mut m: u64 = 0;
        let mut i: usize = 0;
        while i < self.subtasks.len()
            invariant
                i <= self.subtasks@.len(),
                self.wf(),
                any == (max_rank_of(self.subtasks@.subrange(0, i as int), task_id) >= 0),
                any ==> m == max_rank_of(self.subtasks@.subrange(0, i as int), task_id),
                any ==> m < self.next_subtask_id,
            decreases self.subtasks@.len() - i,
        {
            let ghost pre = self.subtasks@.subrange(0, i as int);
            proof {
                assert(self.subtasks@.subrange(0, i as int + 1) =~= pre.push(self.subtasks@[i as int]));
                assert(self.subtasks@.subrange(0, i as int + 1).drop_last() =~= pre);
            }
            if self.subtasks[i].task_id == task_id {
                if !any || self.subtasks[i].priority > m {
                    m = self.subtasks[i].priority;
                    any = true;
                }
            }
            i += 1;
        }
        proof {
            assert(self.subtasks@.subrange(0, self.subtasks@.len() as int) =~= self.subtasks@);
        }
        if any {
            m + 1
        } else {
            0
        }
    }

    /// Append one subtask at the end of the task's rank order, raising the
    /// parent's `has_subtasks` flag, and return the new subtask's id.
    pub fn create_subtask(&mut self, task_id: u64, user: u128, req: CreateSubtaskRequest) -> (r:
        Result<u64, EngineError>)
        requires
            old(self).wf(),
            old(self).next_subtask_id < u64::MAX,
        ensures
            final(self).wf(),
            r is Err <==> !old(self).owned_task(task_id, user),
            r is Err ==> r == Result::<u64, EngineError>::Err(EngineError::NotFound)
                && final(self).same_state(*old(self)),
            r is Ok ==> {
                &&& r == Result::<u64, EngineError>::Ok(old(self).next_subtask_id)
                &&& final(self).subtasks@ == old(self).subtasks@.push(
                    (Subtask {
                        id: old(self).next_subtask_id,
                        task_id: task_id,
                        title: req.title,
                        completed: false,
                        priority: (max_rank_of(old(self).subtasks@, task_id) + 1) as u64,
                    }),
                )
                &&& final(self).next_subtask_id == old(self).next_subtask_id + 1
                &&& final(self).next_task_id == old(self).next_task_id
                &&& final(self).completions@ == old(self).completions@
                &&& final(self).tasks@.len() == old(self).tasks@.len()
                &&& forall|j: int|
                    0 <= j < old(self).tasks@.len() && j != old(self).task_index(task_id)
                        ==> #[trigger] final(self).tasks@[j] == old(self).tasks@[j]
                &&& task_same_but_flag(
                    old(self).tasks@[old(self).task_index(task_id)],
                    final(self).tasks@[old(self).task_index(task_id)],
                    true,
                )
            },
    {
        let ti = match self.find_task_idx(task_id) {
            Some(i) => i,
            None => {
                return Err(EngineError::NotFound);
            }
        };
        proof {
            lemma_task_at(*self, ti as int);
        }
        if self.tasks[ti].user != user {
            return Err(EngineError::NotFound);
        }
        let rank = self.next_rank(task_id);
        let sid = self.next_subtask_id;
        self.subtasks.push(Subtask {
            id: sid,
            task_id,
            title: req.title,
            completed: false,
            priority: rank,
        });
        self.next_subtask_id = sid + 1;
        self.set_task_flag(ti, true);
        proof {
            let pre = *old(self);
            let post = *self;
            let n = pre.subtasks@.len() as int;
            assert forall|a: int, b: int| 0 <= a < b < post.subtasks@.len() implies
                (#[trigger] post.subtasks@[a]).id != (#[trigger] post.subtasks@[b]).id by {
                if b < n {
                    assert(post.subtasks@[a] == pre.subtasks@[a]);
                    assert(post.subtasks@[b] == pre.subtasks@[b]);
                } else {
                    assert(post.subtasks@[a] == pre.subtasks@[a]);
                    assert(pre.subtasks@[a].id < pre.next_subtask_id);
                }
            }
            assert forall|x: u64| x != task_id implies #[trigger] post.has_subs(x) == pre.has_subs(
                x,
            ) by {
                if pre.has_subs(x) {
                    let i = choose|i: int|
                        0 <= i < pre.subtasks@.len() && (#[trigger] pre.subtasks@[i]).task_id == x;
                    assert(post.subtasks@[i].task_id == x);
                }
                if post.has_subs(x) {
                    let i = choose|i: int|
                        0 <= i < post.subtasks@.len() && (#[trigger] post.subtasks@[i]).task_id
                            == x;
                    assert(i < n);
                    assert(pre.subtasks@[i].task_id == x);
                }
            }
            assert(post.subtasks@[n].task_id == task_id);
            assert(post.has_subs(task_id));
            assert forall|j: int| 0 <= j < post.tasks@.len() implies
                (#[trigger] post.tasks@[j]).has_subtasks == post.has_subs(post.tasks@[j].id) by {
                if j == ti as int {
                    assert(post.tasks@[j].id == task_id);
                } else {
                    assert(post.tasks@[j] == pre.tasks@[j]);
                    assert(pre.tasks@[j].id != task_id);
                }
            }
            assert(post.wf());
        }
        Ok(sid)
    }

    /// Remove one subtask row; when it was the task's last one, the parent's
    /// `has_subtasks` flag falls back to false. The ledger is not touched.
    pub fn delete_subtask(&mut self, task_id: u64, subtask_id: u64, user: u128) -> (r: Result<
        (),
        EngineError,
    >)
        requires
            old(self).wf(),
        ensures
            final(self).wf(),
            r is Err <==> !(old(self).owned_task(task_id, user) && old(self).has_sub_id(subtask_id)
                && old(self).spec_sub(subtask_id).task_id == task_id),
            r is Err ==> r == Result::<(), EngineError>::Err(EngineError::NotFound)
                && final(self).same_state(*old(self)),
            r is Ok ==> {
                &&& final(self).subtasks@ == old(self).subtasks@.remove(old(self).sub_index(subtask_id))
                &&& !final(self).has_sub_id(subtask_id)
                &&& final(self).completions@ == old(self).completions@
                &&& final(self).next_task_id == old(self).next_task_id
                &&& final(self).next_subtask_id == old(self).next_subtask_id
                &&& final(self).tasks@.len() == old(self).tasks@.len()
                &&& forall|j: int|
                    0 <= j < old(self).tasks@.len() && j != old(self).task_index(task_id)
                        ==> #[trigger] final(self).tasks@[j] == old(self).tasks@[j]
                &&& task_same_but_flag(
                    old(self).tasks@[old(self).task_index(task_id)],
                    final(self).tasks@[old(self).task_index(task_id)],
                    final(self).has_subs(task_id),
                )
            },
    {
        let ti = match self.find_task_idx(task_id) {
            Some(i) => i,
            None => {
                return Err(EngineError::NotFound);
            }
        };
        proof {
            lemma_task_at(*self, ti as int);
        }
        if self.tasks[ti].user != user {
            return Err(EngineError::NotFound);
        }
        let si = match self.find_sub_idx(subtask_id) {
            Some(i) => i,
            None => {
                return Err(EngineError::NotFound);
            }
        };
        proof {
            lemma_sub_at(*self, si as int);
        }
        if self.subtasks[si].task_id != task_id {
            return Err(EngineError::NotFound);
        }
        self.subtasks.remove(si);
        proof {
            let pre = *old(self);
            let post_subs = self.subtasks@;
            assert forall|k: int| 0 <= k < post_subs.len() implies #[trigger] post_subs[k]
                == (if k < si as int {
                    pre.subtasks@[k]
                } else {
                    pre.subtasks@[k + 1]
                }) by {}
            assert forall|x: u64| x != task_id implies (exists|i: int|
                0 <= i < post_subs.len() && (#[trigger] post_subs[i]).task_id == x) == pre.has_subs(
                x,
            ) by {
                if pre.has_subs(x) {
                    let i = choose|i: int|
                        0 <= i < pre.subtasks@.len() && (#[trigger] pre.subtasks@[i]).task_id == x;
                    assert(i != si as int);
                    if i < si as int {
                        assert(post_subs[i].task_id == x);
                    } else {
                        assert(post_subs[i - 1].task_id == x);
                    }
                }
                if exists|i: int| 0 <= i < post_subs.len() && (#[trigger] post_subs[i]).task_id == x {
                    let i = choose|i: int|
                        0 <= i < post_subs.len() && (#[trigger] post_subs[i]).task_id == x;
                    if i < si as int {
                        assert(pre.subtasks@[i].task_id == x);
                    } else {
                        assert(pre.subtasks@[i + 1].task_id == x);
                    }
                }
            }
        }
        let hs = self.has_subs_exec(task_id);
        self.set_task_flag(ti, hs);
        proof {
            let pre = *old(self);
            let post = *self;
            let n = post.subtasks@.len() as int;
            assert forall|a: int, b: int| 0 <= a < b < n implies
                (#[trigger] post.subtasks@[a]).id != (#[trigger] post.subtasks@[b]).id by {
                let pa: int = if a < si as int { a } else { a + 1 };
                let pb: int = if b < si as int { b } else { b + 1 };
                assert(post.subtasks@[a] == pre.subtasks@[pa]);
                assert(post.subtasks@[b] == pre.subtasks@[pb]);
            }
            assert forall|b: int| 0 <= b < n implies ((#[trigger] post.subtasks@[b]).id
                < post.next_subtask_id && post.subtasks@[b].priority < post.next_subtask_id) by {
                let pb: int = if b < si as int { b } else { b + 1 };
                assert(post.subtasks@[b] == pre.subtasks@[pb]);
            }
            assert forall|b: int| 0 <= b < n implies (#[trigger] post.subtasks@[b]).id
                != subtask_id by {
                let pb: int = if b < si as int { b } else { b + 1 };
                assert(post.subtasks@[b] == pre.subtasks@[pb]);
                assert(pre.subtasks@[pb].id != pre.subtasks@[si as int].id);
            }
            assert(!post.has_sub_id(subtask_id));
            assert forall|j: int| 0 <= j < post.tasks@.len() implies
                (#[trigger] post.tasks@[j]).has_subtasks == post.has_subs(post.tasks@[j].id) by {
                if j == ti as int {
                    assert(post.tasks@[j].id == task_id);
                } else {
                    assert(post.tasks@[j] == pre.tasks@[j]);
                    assert(pre.tasks@[j].id != task_id);
                }
            }
            assert(post.wf());
            assert(post.subtasks@ =~= pre.subtasks@.remove(si as int));
        }
        Ok(())
    }

    /// Persist a drag-and-drop order of the daily view: the task at position
    /// `k` gets daily rank `k` for `today`, its stored completion value (or
    /// false when it had none) carried over. With a duplicated id the later
    /// position wins.
    ///
    /// The ids are written without a per-id ownership check, mirroring the
    /// observed behaviour of the reorder endpoint; `user` is part of the
    /// interface but not consulted. Callers that want the stricter rule
    /// filter the list first.
    #[allow(unused_variables)]
    pub fn update_task_priorities(&mut self, user: u128, ordered_task_ids: &Vec<u64>, today: u64)
        requires
            old(self).wf(),
        ensures
            final(self).wf(),
            final(self).tasks@ == old(self).tasks@,
            final(self).subtasks@ == old(self).subtasks@,
            final(self).next_task_id == old(self).next_task_id,
            final(self).next_subtask_id == old(self).next_subtask_id,
            reorder_applied(*old(self), *final(self), ordered_task_ids@, today),
    {
        let n = ordered_task_ids.len();
        let mut k: usize = 0;
        while k < n
            invariant
                k <= n,
                n == ordered_task_ids@.len(),
                self.wf(),
                self.tasks@ == old(self).tasks@,
                self.subtasks@ == old(self).subtasks@,
                self.next_task_id == old(self).next_task_id,
                self.next_subtask_id == old(self).next_subtask_id,
                reorder_applied(
                    *old(self),
                    *self,
                    ordered_task_ids@.subrange(0, k as int),
                    today,
                ),
            decreases n - k,
        {
            let ghost prev = *self;
            let ghost done = ordered_task_ids@.subrange(0, k as int);
            let t = ordered_task_ids[k];
            self.upsert_rank(t, today, k as u64);
            proof {
                let next = ordered_task_ids@.subrange(0, k as int + 1);
                assert(next =~= done.push(t));
                lemma_last_rank_push(done, t);
                assert forall|t2: u64| #[trigger] next.contains(t2) implies
                    self.has_record(t2, today) && self.ledger_rank(t2, today) == last_rank_of(
                        next,
                        t2,
                    ) as u64 && self.ledger_completed(t2, today) == old(self).ledger_completed(
                        t2,
                        today,
                    ) by {
                    if t2 == t {
                        assert(last_rank_of(next, t2) == k as int);
                        if done.contains(t2) {
                            assert(prev.ledger_completed(t2, today) == old(self).ledger_completed(t2, today));
                        } else {
                            assert(prev.ledger_completed(t2, today) == old(self).ledger_completed(t2, today));
                        }
                    } else {
                        assert(done.contains(t2));
                        assert(last_rank_of(next, t2) == last_rank_of(done, t2));
                        assert(self.has_record(t2, today) == prev.has_record(t2, today));
                        assert(self.ledger_rank(t2, today) == prev.ledger_rank(t2, today));
                        assert(self.ledger_completed(t2, today) == prev.ledger_completed(t2, today));
                    }
                }
                assert forall|t2: u64, d2: u64| (d2 != today || !next.contains(t2)) implies
                    old(self).has_record(t2, d2) == self.has_record(t2, d2) && old(self)
                        .ledger_completed(t2, d2) == self.ledger_completed(t2, d2) && old(self)
                        .ledger_rank(t2, d2) == self.ledger_rank(t2, d2) by {
                    assert(!(t2 == t && d2 == today));
                    assert(prev.has_record(t2, d2) == self.has_record(t2, d2));
                    assert(prev.ledger_completed(t2, d2) == self.ledger_completed(t2, d2));
                    assert(prev.ledger_rank(t2, d2) == self.ledger_rank(t2, d2));
                    assert(!done.contains(t2) || d2 != today);
                }
            }
            k += 1;
        }
        proof {
            assert(ordered_task_ids@.subrange(0, n as int) =~= ordered_task_ids@);
        }
    }

    /// Create a task owned by `user`: live, not archived, recurring on the
    /// normalised weekday set, with the optional initial subtask titles
    /// inserted as a fresh subtask list (blank titles skipped). Returns the
    /// new task's id.
    pub fn create_task(&mut self, user: u128, req: CreateTaskRequest) -> (r: u64)
        requires
            old(self).wf(),
            old(self).next_task_id < u64::MAX,
            match req.subtasks {
                Some(ts) => old(self).next_subtask_id as int + ts@.len() <= u64::MAX as int,
                None => true,
            },
        ensures
            final(self).wf(),
            r == old(self).next_task_id,
            final(self).next_task_id == old(self).next_task_id + 1,
            final(self).completions@ == old(self).completions@,
            final(self).tasks@.len() == old(self).tasks@.len() + 1,
            forall|j: int|
                0 <= j < old(self).tasks@.len() ==> #[trigger] final(self).tasks@[j] == old(
                    self,
                ).tasks@[j],
            ({
                let row = final(self).tasks@[old(self).tasks@.len() as int];
                let kept = match req.subtasks {
                    Some(ts) => kept_titles(ts@),
                    None => Seq::<String>::empty(),
                };
                &&& row.id == r
                &&& row.user == user
                &&& row.title == req.title
                &&& row.active
                &&& !row.deleted
                &&& row.days@ == normalized_days(req.days@)
                &&& row.has_subtasks == (kept.len() > 0)
                &&& final(self).subtasks@ == old(self).subtasks@ + new_sub_rows(
                    kept,
                    r,
                    old(self).next_subtask_id,
                )
                &&& final(self).next_subtask_id == old(self).next_subtask_id + kept.len()
            }),
    {
        let tid = self.next_task_id;
        let days = normalize_days(&req.days);
        self.tasks.push(TaskRec {
            id: tid,
            user,
            title: req.title,
            active: true,
            deleted: false,
            has_subtasks: false,
            days,
        });
        self.next_task_id = tid + 1;
        proof {
            let pre = *old(self);
            let mid = *self;
            let n = pre.tasks@.len() as int;
            lemma_subs_same(pre, mid);
            assert forall|j: int| 0 <= j < n implies (#[trigger] mid.tasks@[j]).id
                < mid.next_task_id by {
                assert(mid.tasks@[j] == pre.tasks@[j]);
            }
            assert(!mid.has_subs(tid)) by {
                if mid.has_subs(tid) {
                    let i = choose|i: int|
                        0 <= i < mid.subtasks@.len() && (#[trigger] mid.subtasks@[i]).task_id
                            == tid;
                    assert(pre.subtasks@[i].task_id < pre.next_task_id);
                }
            }
            assert forall|j: int| 0 <= j < mid.tasks@.len() implies
                (#[trigger] mid.tasks@[j]).has_subtasks == mid.has_subs(mid.tasks@[j].id) by {
                if j < n {
                    assert(mid.tasks@[j] == pre.tasks@[j]);
                }
            }
            assert(mid.wf());
            lemma_task_at(mid, n);
        }
        let ghost mid = *self;
        match req.subtasks {
            Some(ts) => {
                match self.replace_subtasks(tid, user, &ts) {
                    Ok(()) => {
                        proof {
                            lemma_drop_subs_none(mid.subtasks@, tid);
                        }
                    }
                    Err(_) => {
                        proof {
                            assert(false);
                        }
                    }
                }
            }
            None => {}
        }
        tid
    }

    /// Apply optional edits to a task: a new title, a new archived state, a
    /// replacement weekday set (normalised), and a full subtask replacement
    /// with the semantics of [`Store::replace_subtasks`].
    pub fn update_task(&mut self, id: u64, user: u128, req: UpdateTaskRequest) -> (r: Result<
        (),
        EngineError,
    >)
        requires
            old(self).wf(),
            match req.subtasks {
                Some(subs) => old(self).next_subtask_id as int + subs@.len() <= u64::MAX as int,
                None => true,
            },
        ensures
            final(self).wf(),
            r is Err <==> !old(self).owned_task(id, user),
            r is Err ==> r == Result::<(), EngineError>::Err(EngineError::NotFound)
                && final(self).same_state(*old(self)),
            r is Ok ==> ({
                let idx = old(self).task_index(id);
                let o = old(self).tasks@[idx];
                let kept = match req.subtasks {
                    Some(subs) => kept_titles(sub_update_titles(subs@)),
                    None => Seq::<String>::empty(),
                };
                &&& final(self).tasks@.len() == old(self).tasks@.len()
                &&& forall|j: int|
                    0 <= j < old(self).tasks@.len() && j != idx
                        ==> #[trigger] final(self).tasks@[j] == old(self).tasks@[j]
                &&& task_row_edited(
                    o,
                    final(self).tasks@[idx],
                    match req.title {
                        Some(t) => t,
                        None => o.title,
                    },
                    match req.active {
                        Some(a) => a,
                        None => o.active,
                    },
                    o.deleted,
                    match req.subtasks {
                        Some(_) => kept.len() > 0,
                        None => o.has_subtasks,
                    },
                    match req.days {
                        Some(ds) => normalized_days(ds@),
                        None => o.days@,
                    },
                )
                &&& match req.subtasks {
                    Some(_) => {
                        &&& final(self).subtasks@ == drop_subs_of(old(self).subtasks@, id)
                            + new_sub_rows(kept, id, old(self).next_subtask_id)
                        &&& final(self).next_subtask_id == old(self).next_subtask_id + kept.len()
                    },
                    None => {
                        &&& final(self).subtasks@ == old(self).subtasks@
                        &&& final(self).next_subtask_id == old(self).next_subtask_id
                    },
                }
                &&& final(self).completions@ == old(self).completions@
                &&& final(self).next_task_id == old(self).next_task_id
            }),
    {
        let ti = match self.find_task_idx(id) {
            Some(i) => i,
            None => {
                return Err(EngineError::NotFound);
            }
        };
        proof {
            lemma_task_at(*self, ti as int);
        }
        if self.tasks[ti].user != user {
            return Err(EngineError::NotFound);
        }
        let new_title = match req.title {
            Some(t) => t,
            None => self.tasks[ti].title.clone(),
        };
        let new_active = match req.active {
            Some(a) => a,
            None => self.tasks[ti].active,
        };
        let new_days = match req.days {
            Some(ds) => normalize_days(&ds),
            None => copy_days(&self.tasks[ti].days),
        };
        let was_deleted = self.tasks[ti].deleted;
        let flag = self.tasks[ti].has_subtasks;
        self.set_task_row(ti, new_title, new_active, was_deleted, flag, new_days);
        proof {
            let pre = *old(self);
            let mid = *self;
            lemma_subs_same(pre, mid);
            assert forall|j: int| 0 <= j < mid.tasks@.len() implies
                ((#[trigger] mid.tasks@[j]).id == pre.tasks@[j].id && mid.tasks@[j].has_subtasks
                    == pre.tasks@[j].has_subtasks) by {
                if j != ti as int {
                    assert(mid.tasks@[j] == pre.tasks@[j]);
                }
            }
            assert(mid.wf());
            lemma_task_at(mid, ti as int);
        }
        let ghost mid = *self;
        match req.subtasks {
            Some(subs) => {
                let mut titles: Vec<String> = Vec::new();
                let mut i: usize = 0;
                while i < subs.len()
                    invariant
                        i <= subs@.len(),
                        titles@.len() == i,
                        forall|j: int| 0 <= j < i ==> #[trigger] titles@[j] == subs@[j].title,
                    decreases subs@.len() - i,
                {
                    titles.push(subs[i].title.clone());
                    i += 1;
                }
                proof {
                    assert(titles@ =~= sub_update_titles(subs@));
                }
                match self.replace_subtasks(id, user, &titles) {
                    Ok(()) => {
                        proof {
                            assert(mid.task_index(id) == ti as int);
                        }
                    }
                    Err(_) => {
                        proof {
                            assert(false);
                        }
                    }
                }
            }
            None => {}
        }
        Ok(())
    }

    /// Soft-delete a task: the row stays but every read path excludes it from
    /// then on. A task that does not exist or is not owned is left alone, and
    /// no failure is reported.
    pub fn delete_task(&mut self, id: u64, user: u128)
        requires
            old(self).wf(),
        ensures
            final(self).wf(),
            final(self).subtasks@ == old(self).subtasks@,
            final(self).completions@ == old(self).completions@,
            final(self).next_task_id == old(self).next_task_id,
            final(self).next_subtask_id == old(self).next_subtask_id,
            final(self).tasks@.len() == old(self).tasks@.len(),
            !old(self).owned_task(id, user) ==> final(self).tasks@ == old(self).tasks@,
            old(self).owned_task(id, user) ==> ({
                let idx = old(self).task_index(id);
                let o = old(self).tasks@[idx];
                &&& forall|j: int|
                    0 <= j < old(self).tasks@.len() && j != idx
                        ==> #[trigger] final(self).tasks@[j] == old(self).tasks@[j]
                &&& task_row_edited(
                    o,
                    final(self).tasks@[idx],
                    o.title,
                    o.active,
                    true,
                    o.has_subtasks,
                    o.days@,
                )
            }),
    {
        let ti = match self.find_task_idx(id) {
            Some(i) => i,
            None => {
                return ;
            }
        };
        proof {
            lemma_task_at(*self, ti as int);
        }
        if self.tasks[ti].user != user {
            return ;
        }
        let title = self.tasks[ti].title.clone();
        let active = self.tasks[ti].active;
        let flag = self.tasks[ti].has_subtasks;
        let days = copy_days(&self.tasks[ti].days);
        self.set_task_row(ti, title, active, true, flag, days);
        proof {
            let pre = *old(self);
            let post = *self;
            lemma_subs_same(pre, post);
            assert forall|j: int| 0 <= j < post.tasks@.len() implies
                ((#[trigger] post.tasks@[j]).id == pre.tasks@[j].id && post.tasks@[j].has_subtasks
                    == pre.tasks@[j].has_subtasks) by {
                if j != ti as int {
                    assert(post.tasks@[j] == pre.tasks@[j]);
                }
            }
            assert(post.wf());
        }
    }

    /// Flip a task between live and archived. A task that does not exist or
    /// is not owned is left alone, and no failure is reported.
    pub fn toggle_archive(&mut self, id: u64, user: u128)
        requires
            old(self).wf(),
        ensures
            final(self).wf(),
            final(self).subtasks@ == old(self).subtasks@,
            final(self).completions@ == old(self).completions@,
            final(self).next_task_id == old(self).next_task_id,
            final(self).next_subtask_id == old(self).next_subtask_id,
            final(self).tasks@.len() == old(self).tasks@.len(),
            !old(self).owned_task(id, user) ==> final(self).tasks@ == old(self).tasks@,
            old(self).owned_task(id, user) ==> ({
                let idx = old(self).task_index(id);
                let o = old(self).tasks@[idx];
                &&& forall|j: int|
                    0 <= j < old(self).tasks@.len() && j != idx
                        ==> #[trigger] final(self).tasks@[j] == old(self).tasks@[j]
                &&& task_row_edited(
                    o,
                    final(self).tasks@[idx],
                    o.title,
                    !o.active,
                    o.deleted,
                    o.has_subtasks,
                    o.days@,
                )
            }),
    {
        let ti = match self.find_task_idx(id) {
            Some(i) => i,
            None => {
                return ;
            }
        };
        proof {
            lemma_task_at(*self, ti as int);
        }
        if self.tasks[ti].user != user {
            return ;
        }
        let title = self.tasks[ti].title.clone();
        let active = self.tasks[ti].active;
        let was_deleted = self.tasks[ti].deleted;
        let flag = self.tasks[ti].has_subtasks;
        let days = copy_days(&self.tasks[ti].days);
        self.set_task_row(ti, title, !active, was_deleted, flag, days);
        proof {
            let pre = *old(self);
            let post = *self;
            lemma_subs_same(pre, post);
            assert forall|j: int| 0 <= j < post.tasks@.len() implies
                ((#[trigger] post.tasks@[j]).id == pre.tasks@[j].id && post.tasks@[j].has_subtasks
                    == pre.tasks@[j].has_subtasks) by {
                if j != ti as int {
                    assert(post.tasks@[j] == pre.tasks@[j]);
                }
            }
            assert(post.wf());
        }
    }
}

} // verus!
