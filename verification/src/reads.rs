//! The read paths of the engine: the daily view, the management view and
//! the subtask listing. Read paths never mutate the store.

use vstd::prelude::*;

use crate::model::{
    sub_key_le, subs_sorted, task_due_on, task_key_le, tasks_sorted, weekday_of, EngineError,
    Store, Subtask, Task, TaskRec,
};
use crate::store::{copy_days, copy_subtask, lemma_sub_at, lemma_task_at};

verus! {

/// Some row among the first `n` of `subs` equals `row`.
pub open spec fn sub_row_in_prefix(subs: Seq<Subtask>, n: int, row: Subtask) -> bool {
    exists|j: int| 0 <= j < n && (#[trigger] subs[j]) == row
}

/// Some row among the first `n` of `tasks` carries id `id`.
pub open spec fn task_id_in_prefix(tasks: Seq<TaskRec>, n: int, id: u64) -> bool {
    exists|j: int| 0 <= j < n && (#[trigger] tasks[j]).id == id
}

/// Some entry of the subtask list carries id `id`.
pub open spec fn sub_view_has_id(sv: Seq<Subtask>, id: u64) -> bool {
    exists|k: int| 0 <= k < sv.len() && (#[trigger] sv[k]).id == id
}

/// Some entry of the task list carries id `id`.
pub open spec fn task_view_has_id(tv: Seq<Task>, id: u64) -> bool {
    exists|k: int| 0 <= k < tv.len() && (#[trigger] tv[k]).id == id
}

/// `sv` is exactly the subtask list a read path reports for task `tid`: every
/// entry is a current subtask row of the task, every current row appears,
/// no id repeats, and the list is in display order (rank, then id).
pub open spec fn subs_view_ok(s: Store, tid: u64, sv: Seq<Subtask>) -> bool {
    &&& subs_sorted(sv)
    &&& forall|k: int|
        0 <= k < sv.len() ==> s.has_sub_id((#[trigger] sv[k]).id) && s.spec_sub(sv[k].id) == sv[k]
            && sv[k].task_id == tid
    &&& forall|i: int|
        0 <= i < s.subtasks@.len() && (#[trigger] s.subtasks@[i]).task_id == tid
            ==> sub_view_has_id(sv, s.subtasks@[i].id)
    &&& forall|k1: int, k2: int|
        0 <= k1 < k2 < sv.len() ==> (#[trigger] sv[k1]).id != (#[trigger] sv[k2]).id
}

/// `v` is a correct row of the daily view: it stands for a task due today,
/// carries the task's own fields, the daily priority joined from the ledger
/// (0 when absent), the derived completion value, and its current subtasks
/// in display order.
pub open spec fn due_view_ok(s: Store, user: u128, today: u64, v: Task) -> bool {
    &&& s.task_with_id(v.id)
    &&& task_due_on(s.spec_task(v.id), user, today)
    &&& v.title == s.spec_task(v.id).title
    &&& v.active == s.spec_task(v.id).active
    &&& v.days@ == s.spec_task(v.id).days@
    &&& v.priority == s.ledger_rank(v.id, today)
    &&& v.completed == s.effective_completed(v.id, today)
    &&& v.has_subtasks == s.spec_task(v.id).has_subtasks
    &&& subs_view_ok(s, v.id, v.subtasks@)
}

/// `v` is a correct row of the management view: a live (not deleted) task of
/// the user, archived or not, with its full recurrence set and subtasks. The
/// management view carries no daily state, so `completed` and `priority`
/// are reported as their defaults.
pub open spec fn all_view_ok(s: Store, user: u128, v: Task) -> bool {
    &&& s.task_with_id(v.id)
    &&& s.spec_task(v.id).user == user
    &&& !s.spec_task(v.id).deleted
    &&& v.title == s.spec_task(v.id).title
    &&& v.active == s.spec_task(v.id).active
    &&& v.days@ == s.spec_task(v.id).days@
    &&& v.has_subtasks == s.spec_task(v.id).has_subtasks
    &&& v.completed == false
    &&& v.priority == 0
    &&& subs_view_ok(s, v.id, v.subtasks@)
}

/// The number of completed entries in a subtask list prefix.
pub open spec fn completed_subs_count(sv: Seq<Subtask>, n: int) -> int
    decreases n,
{
    if n <= 0 {
        0
    } else {
        completed_subs_count(sv, n - 1) + if sv[n - 1].completed {
            1int
        } else {
            0int
        }
    }
}

/// The truncating completion percentage of a subtask list: completed over
/// total, scaled to 100; 0 with no subtasks.
pub open spec fn spec_subtask_completion(sv: Seq<Subtask>) -> int {
    if sv.len() == 0 {
        0
    } else {
        100 * completed_subs_count(sv, sv.len() as int) / (sv.len() as int)
    }
}

/// The ISO weekday of a day index.
pub fn weekday_of_exec(day: u64) -> (r: u8)
    ensures
        r == weekday_of(day),
{
    (day % 7 + 1) as u8
}

/// Display order of subtasks, executable form.
fn sub_le(a: &Subtask, b: &Subtask) -> (r: bool)
    ensures
        r == sub_key_le(*a, *b),
{
    a.priority < b.priority || (a.priority == b.priority && a.id <= b.id)
}

/// Display order of daily-view rows, executable form.
fn task_le(a: &Task, b: &Task) -> (r: bool)
    ensures
        r == task_key_le(*a, *b),
{
    a.priority < b.priority || (a.priority == b.priority && a.id <= b.id)
}

/// Insert a subtask into a list kept in display order.
fn insert_sub_sorted(v: &mut Vec<Subtask>, st: Subtask)
    requires
        subs_sorted(old(v)@),
        forall|k1: int, k2: int|
            0 <= k1 < k2 < old(v)@.len() ==> (#[trigger] old(v)@[k1]).id
                != (#[trigger] old(v)@[k2]).id,
        forall|k: int| 0 <= k < old(v)@.len() ==> (#[trigger] old(v)@[k]).id != st.id,
    ensures
        subs_sorted(final(v)@),
        final(v)@.len() == old(v)@.len() + 1,
        forall|x: Subtask|
            #![trigger final(v)@.contains(x)]
            #![trigger old(v)@.contains(x)]
            final(v)@.contains(x) <==> (old(v)@.contains(x) || x == st),
        forall|k1: int, k2: int|
            0 <= k1 < k2 < final(v)@.len() ==> (#[trigger] final(v)@[k1]).id
                != (#[trigger] final(v)@[k2]).id,
{
    let mut p: usize = 0;
    while p < v.len() && sub_le(&v[p], &st)
        invariant
            p <= v@.len(),
            subs_sorted(v@),
            forall|k: int| 0 <= k < p ==> sub_key_le(#[trigger] v@[k], st),
        decreases v@.len() - p,
    {
        p += 1;
    }
    let ghost pre = v@;
    let ghost pos = p as int;
    v.insert(p, st);
    proof {
        pre.insert_ensures(pos, st);
        assert forall|i: int, j: int| 0 <= i < j < v@.len() implies sub_key_le(
            #[trigger] v@[i],
            #[trigger] v@[j],
        ) by {
            if i < pos && j < pos {
                assert(v@[i] == pre[i]);
                assert(v@[j] == pre[j]);
            } else if i < pos && j == pos {
                assert(v@[i] == pre[i]);
            } else if i < pos && j > pos {
                assert(v@[i] == pre[i]);
                assert(v@[j] == pre[j - 1]);
            } else if i == pos && j > pos {
                assert(v@[j] == pre[j - 1]);
                assert(j - 1 >= pos);
                if pos < pre.len() {
                    assert(sub_key_le(pre[pos], pre[j - 1]) || pos == j - 1);
                }
            } else {
                assert(v@[i] == pre[i - 1]);
                assert(v@[j] == pre[j - 1]);
            }
        }
        assert forall|x: Subtask| v@.contains(x) <==> (pre.contains(x) || x == st) by {
            if v@.contains(x) {
                let k = choose|k: int| 0 <= k < v@.len() && v@[k] == x;
                if k == pos {
                    assert(x == st);
                } else if k < pos {
                    assert(pre[k] == x);
                    assert(pre.contains(x));
                } else {
                    assert(pre[k - 1] == x);
                    assert(pre.contains(x));
                }
            }
            if pre.contains(x) {
                let k = choose|k: int| 0 <= k < pre.len() && pre[k] == x;
                if k < pos {
                    assert(v@[k] == x);
                } else {
                    assert(v@[k + 1] == x);
                }
                assert(v@.contains(x));
            }
            if x == st {
                assert(v@[pos] == x);
                assert(v@.contains(x));
            }
        }
        assert forall|k1: int, k2: int| 0 <= k1 < k2 < v@.len() implies (#[trigger] v@[k1]).id
            != (#[trigger] v@[k2]).id by {
            if k1 == pos {
                assert(v@[k2] == pre[k2 - 1]);
            } else if k2 == pos {
                assert(v@[k1] == pre[k1]);
            } else {
                let p1: int = if k1 < pos {
                    k1
                } else {
                    k1 - 1
                };
                let p2: int = if k2 < pos {
                    k2
                } else {
                    k2 - 1
                };
                assert(v@[k1] == pre[p1]);
                assert(v@[k2] == pre[p2]);
            }
        }
    }
}

/// Insert a daily-view row into a list kept in display order.
fn insert_task_sorted(v: &mut Vec<Task>, t: Task)
    requires
        tasks_sorted(old(v)@),
        forall|k1: int, k2: int|
            0 <= k1 < k2 < old(v)@.len() ==> (#[trigger] old(v)@[k1]).id
                != (#[trigger] old(v)@[k2]).id,
        forall|k: int| 0 <= k < old(v)@.len() ==> (#[trigger] old(v)@[k]).id != t.id,
    ensures
        tasks_sorted(final(v)@),
        final(v)@.len() == old(v)@.len() + 1,
        forall|x: Task|
            #![trigger final(v)@.contains(x)]
            #![trigger old(v)@.contains(x)]
            final(v)@.contains(x) <==> (old(v)@.contains(x) || x == t),
        forall|k1: int, k2: int|
            0 <= k1 < k2 < final(v)@.len() ==> (#[trigger] final(v)@[k1]).id
                != (#[trigger] final(v)@[k2]).id,
{
    let mut p: usize = 0;
    while p < v.len() && task_le(&v[p], &t)
        invariant
            p <= v@.len(),
            tasks_sorted(v@),
            forall|k: int| 0 <= k < p ==> task_key_le(#[trigger] v@[k], t),
        decreases v@.len() - p,
    {
        p += 1;
    }
    let ghost pre = v@;
    let ghost pos = p as int;
    v.insert(p, t);
    proof {
        pre.insert_ensures(pos, t);
        assert forall|i: int, j: int| 0 <= i < j < v@.len() implies task_key_le(
            #[trigger] v@[i],
            #[trigger] v@[j],
        ) by {
            if i < pos && j < pos {
                assert(v@[i] == pre[i]);
                assert(v@[j] == pre[j]);
            } else if i < pos && j == pos {
                assert(v@[i] == pre[i]);
            } else if i < pos && j > pos {
                assert(v@[i] == pre[i]);
                assert(v@[j] == pre[j - 1]);
            } else if i == pos && j > pos {
                assert(v@[j] == pre[j - 1]);
                assert(j - 1 >= pos);
                if pos < pre.len() {
                    assert(task_key_le(pre[pos], pre[j - 1]) || pos == j - 1);
                }
            } else {
                assert(v@[i] == pre[i - 1]);
                assert(v@[j] == pre[j - 1]);
            }
        }
        assert forall|x: Task| v@.contains(x) <==> (pre.contains(x) || x == t) by {
            if v@.contains(x) {
                let k = choose|k: int| 0 <= k < v@.len() && v@[k] == x;
                if k == pos {
                    assert(x == t);
                } else if k < pos {
                    assert(pre[k] == x);
                    assert(pre.contains(x));
                } else {
                    assert(pre[k - 1] == x);
                    assert(pre.contains(x));
                }
            }
            if pre.contains(x) {
                let k = choose|k: int| 0 <= k < pre.len() && pre[k] == x;
                if k < pos {
                    assert(v@[k] == x);
                } else {
                    assert(v@[k + 1] == x);
                }
                assert(v@.contains(x));
            }
            if x == t {
                assert(v@[pos] == x);
                assert(v@.contains(x));
            }
        }
        assert forall|k1: int, k2: int| 0 <= k1 < k2 < v@.len() implies (#[trigger] v@[k1]).id
            != (#[trigger] v@[k2]).id by {
            if k1 == pos {
                assert(v@[k2] == pre[k2 - 1]);
            } else if k2 == pos {
                assert(v@[k1] == pre[k1]);
            } else {
                let p1: int = if k1 < pos {
                    k1
                } else {
                    k1 - 1
                };
                let p2: int = if k2 < pos {
                    k2
                } else {
                    k2 - 1
                };
                assert(v@[k1] == pre[p1]);
                assert(v@[k2] == pre[p2]);
            }
        }
    }
}

/// One collection step over the bare row sequence: adding the matching row
/// at index `i` to a list that correctly mirrors the first `i` rows yields a
/// list that correctly mirrors the first `i + 1` rows.
proof fn lemma_collect_step(
    subs: Seq<Subtask>,
    tid: u64,
    pre: Seq<Subtask>,
    post: Seq<Subtask>,
    i: int,
)
    requires
        forall|a: int, b: int|
            0 <= a < b < subs.len() ==> (#[trigger] subs[a]).id != (#[trigger] subs[b]).id,
        0 <= i < subs.len(),
        subs[i].task_id == tid,
        forall|k: int| 0 <= k < pre.len() ==> sub_row_in_prefix(subs, i, #[trigger] pre[k]),
        forall|k: int| 0 <= k < pre.len() ==> (#[trigger] pre[k]).task_id == tid,
        forall|j: int|
            0 <= j < i && (#[trigger] subs[j]).task_id == tid ==> sub_view_has_id(pre, subs[j].id),
        forall|x: Subtask|
            #![trigger post.contains(x)]
            #![trigger pre.contains(x)]
            post.contains(x) <==> (pre.contains(x) || x == subs[i]),
    ensures
        forall|k: int| 0 <= k < post.len() ==> sub_row_in_prefix(subs, i + 1, #[trigger] post[k]),
        forall|k: int| 0 <= k < post.len() ==> (#[trigger] post[k]).task_id == tid,
        forall|j: int|
            0 <= j < i + 1 && (#[trigger] subs[j]).task_id == tid ==> sub_view_has_id(
                post,
                subs[j].id,
            ),
{
    let row = subs[i];
    assert forall|k: int| 0 <= k < post.len() implies (sub_row_in_prefix(
        subs,
        i + 1,
        #[trigger] post[k],
    ) && post[k].task_id == tid) by {
        assert(post.contains(post[k]));
        if post[k] == row {
            assert(subs[i] == post[k]);
            assert(sub_row_in_prefix(subs, i + 1, post[k]));
        } else {
            assert(pre.contains(post[k]));
            let k2 = choose|k2: int| 0 <= k2 < pre.len() && pre[k2] == post[k];
            assert(sub_row_in_prefix(subs, i, pre[k2]));
            let j = choose|j: int| 0 <= j < i && (#[trigger] subs[j]) == pre[k2];
            assert(subs[j] == post[k]);
            assert(sub_row_in_prefix(subs, i + 1, post[k]));
        }
    }
    assert forall|j: int| 0 <= j < i + 1 && (#[trigger] subs[j]).task_id == tid implies
        sub_view_has_id(post, subs[j].id) by {
        if j == i {
            assert(post.contains(row));
            let k = choose|k: int| 0 <= k < post.len() && post[k] == row;
            assert(post[k].id == subs[j].id);
        } else {
            assert(sub_view_has_id(pre, subs[j].id));
            let k2 = choose|k2: int| 0 <= k2 < pre.len() && (#[trigger] pre[k2]).id == subs[j].id;
            assert(pre.contains(pre[k2]));
            assert(post.contains(pre[k2]));
            let k = choose|k: int| 0 <= k < post.len() && post[k] == pre[k2];
            assert(post[k].id == subs[j].id);
        }
    }
}

/// One daily-view step: adding a correct view of task row `i` to a list
/// that correctly mirrors the first `i` rows yields a list that mirrors the
/// first `i + 1`.
proof fn lemma_due_step(
    s: Store,
    user: u128,
    today: u64,
    pre: Seq<Task>,
    post: Seq<Task>,
    i: int,
    view: Task,
)
    requires
        forall|a: int, b: int|
            0 <= a < b < s.tasks@.len() ==> (#[trigger] s.tasks@[a]).id != (#[trigger] s.tasks@[b]).id,
        0 <= i < s.tasks@.len(),
        view.id == s.tasks@[i].id,
        due_view_ok(s, user, today, view),
        task_due_on(s.tasks@[i], user, today),
        forall|k: int| 0 <= k < pre.len() ==> due_view_ok(s, user, today, #[trigger] pre[k]),
        forall|k: int|
            0 <= k < pre.len() ==> task_id_in_prefix(s.tasks@, i, (#[trigger] pre[k]).id),
        forall|j: int|
            0 <= j < i && task_due_on(#[trigger] s.tasks@[j], user, today) ==> task_view_has_id(
                pre,
                s.tasks@[j].id,
            ),
        forall|x: Task|
            #![trigger post.contains(x)]
            #![trigger pre.contains(x)]
            post.contains(x) <==> (pre.contains(x) || x == view),
    ensures
        forall|k: int| 0 <= k < post.len() ==> due_view_ok(s, user, today, #[trigger] post[k]),
        forall|k: int|
            0 <= k < post.len() ==> task_id_in_prefix(s.tasks@, i + 1, (#[trigger] post[k]).id),
        forall|j: int|
            0 <= j < i + 1 && task_due_on(#[trigger] s.tasks@[j], user, today) ==> task_view_has_id(
                post,
                s.tasks@[j].id,
            ),
{
    assert forall|k: int| 0 <= k < post.len() implies (due_view_ok(
        s,
        user,
        today,
        #[trigger] post[k],
    ) && task_id_in_prefix(s.tasks@, i + 1, post[k].id)) by {
        assert(post.contains(post[k]));
        if post[k] == view {
            assert(post[k].id == s.tasks@[i].id);
            assert(task_id_in_prefix(s.tasks@, i + 1, post[k].id));
        } else {
            assert(pre.contains(post[k]));
            let k2 = choose|k2: int| 0 <= k2 < pre.len() && pre[k2] == post[k];
            assert(task_id_in_prefix(s.tasks@, i, pre[k2].id));
            let j = choose|j: int| 0 <= j < i && (#[trigger] s.tasks@[j]).id == pre[k2].id;
            assert(post[k].id == s.tasks@[j].id);
            assert(task_id_in_prefix(s.tasks@, i + 1, post[k].id));
        }
    }
    assert forall|j: int|
        0 <= j < i + 1 && task_due_on(#[trigger] s.tasks@[j], user, today) implies task_view_has_id(
        post,
        s.tasks@[j].id,
    ) by {
        if j == i {
            assert(post.contains(view));
            let k = choose|k: int| 0 <= k < post.len() && post[k] == view;
            assert(post[k].id == s.tasks@[j].id);
        } else {
            assert(task_view_has_id(pre, s.tasks@[j].id));
            let k2 = choose|k2: int| 0 <= k2 < pre.len() && (#[trigger] pre[k2]).id == s.tasks@[j].id;
            assert(pre.contains(pre[k2]));
            assert(post.contains(pre[k2]));
            let k = choose|k: int| 0 <= k < post.len() && post[k] == pre[k2];
            assert(post[k].id == s.tasks@[j].id);
        }
    }
}

/// One management-view step: the same argument for the management view.
proof fn lemma_all_step(s: Store, user: u128, pre: Seq<Task>, post: Seq<Task>, i: int, view: Task)
    requires
        forall|a: int, b: int|
            0 <= a < b < s.tasks@.len() ==> (#[trigger] s.tasks@[a]).id != (#[trigger] s.tasks@[b]).id,
        0 <= i < s.tasks@.len(),
        view.id == s.tasks@[i].id,
        all_view_ok(s, user, view),
        s.tasks@[i].user == user && !s.tasks@[i].deleted,
        forall|k: int| 0 <= k < pre.len() ==> all_view_ok(s, user, #[trigger] pre[k]),
        forall|k: int|
            0 <= k < pre.len() ==> task_id_in_prefix(s.tasks@, i, (#[trigger] pre[k]).id),
        forall|j: int|
            0 <= j < i && (#[trigger] s.tasks@[j]).user == user && !s.tasks@[j].deleted
                ==> task_view_has_id(pre, s.tasks@[j].id),
        forall|x: Task|
            #![trigger post.contains(x)]
            #![trigger pre.contains(x)]
            post.contains(x) <==> (pre.contains(x) || x == view),
    ensures
        forall|k: int| 0 <= k < post.len() ==> all_view_ok(s, user, #[trigger] post[k]),
        forall|k: int|
            0 <= k < post.len() ==> task_id_in_prefix(s.tasks@, i + 1, (#[trigger] post[k]).id),
        forall|j: int|
            0 <= j < i + 1 && (#[trigger] s.tasks@[j]).user == user && !s.tasks@[j].deleted
                ==> task_view_has_id(post, s.tasks@[j].id),
{
    assert forall|k: int| 0 <= k < post.len() implies (all_view_ok(s, user, #[trigger] post[k])
        && task_id_in_prefix(s.tasks@, i + 1, post[k].id)) by {
        assert(post.contains(post[k]));
        if post[k] == view {
            assert(post[k].id == s.tasks@[i].id);
            assert(task_id_in_prefix(s.tasks@, i + 1, post[k].id));
        } else {
            assert(pre.contains(post[k]));
            let k2 = choose|k2: int| 0 <= k2 < pre.len() && pre[k2] == post[k];
            assert(task_id_in_prefix(s.tasks@, i, pre[k2].id));
            let j = choose|j: int| 0 <= j < i && (#[trigger] s.tasks@[j]).id == pre[k2].id;
            assert(post[k].id == s.tasks@[j].id);
            assert(task_id_in_prefix(s.tasks@, i + 1, post[k].id));
        }
    }
    assert forall|j: int|
        0 <= j < i + 1 && (#[trigger] s.tasks@[j]).user == user && !s.tasks@[j].deleted implies
        task_view_has_id(post, s.tasks@[j].id) by {
        if j == i {
            assert(post.contains(view));
            let k = choose|k: int| 0 <= k < post.len() && post[k] == view;
            assert(post[k].id == s.tasks@[j].id);
        } else {
            assert(task_view_has_id(pre, s.tasks@[j].id));
            let k2 = choose|k2: int| 0 <= k2 < pre.len() && (#[trigger] pre[k2]).id == s.tasks@[j].id;
            assert(pre.contains(pre[k2]));
            assert(post.contains(pre[k2]));
            let k = choose|k: int| 0 <= k < post.len() && post[k] == pre[k2];
            assert(post[k].id == s.tasks@[j].id);
        }
    }
}

/// The truncating completion percentage of a subtask list (at most 100).
pub fn subtask_completion(subs: &Vec<Subtask>) -> (r: u32)
    ensures
        r == spec_subtask_completion(subs@),
        r <= 100,
{
    let n = subs.len();
    if n == 0 {
        return 0;
    }
    let mut c: u64 = 0;
    let mut i: usize = 0;
    while i < n
        invariant
            i <= n,
            n == subs@.len(),
            c == completed_subs_count(subs@, i as int),
            c <= i,
        decreases n - i,
    {
        if subs[i].completed {
            c = c + 1;
        }
        i += 1;
    }
    let num: u128 = 100u128 * (c as u128);
    let q: u128 = num / (n as u128);
    proof {
        assert(q <= 100) by (nonlinear_arith)
            requires
                0 < n as int,
                c as int <= n as int,
                num == 100 * (c as int),
                q == num as int / (n as int),
        {}
    }
    q as u32
}

impl Store {
    /// The stored daily rank for (`t`, `d`), defaulting to 0.
    pub fn read_ledger_rank(&self, t: u64, d: u64) -> (r: u64)
        requires
            self.wf(),
        ensures
            r == self.ledger_rank(t, d),
    {
        match self.find_rec_idx(t, d) {
            Some(i) => {
                proof {
                    crate::store::lemma_rec_at(*self, i as int);
                }
                self.completions[i].priority
            }
            None => 0,
        }
    }

    /// The completion value a read path reports for a task on a date.
    pub fn effective_completed_exec(&self, tid: u64, d: u64) -> (r: bool)
        requires
            self.wf(),
        ensures
            r == self.effective_completed(tid, d),
    {
        if self.has_subs_exec(tid) {
            self.all_subs_completed_exec(tid)
        } else {
            self.read_ledger_completed(tid, d)
        }
    }

    /// The task's current subtasks in display order.
    fn collect_subs(&self, tid: u64) -> (r: Vec<Subtask>)
        requires
            self.wf(),
        ensures
            subs_view_ok(*self, tid, r@),
    {
        let mut out: Vec<Subtask> = Vec::new();
        let mut i: usize = 0;
        while i < self.subtasks.len()
            invariant
                self.wf(),
                i <= self.subtasks@.len(),
                subs_sorted(out@),
                forall|k: int|
                    0 <= k < out@.len() ==> sub_row_in_prefix(
                        self.subtasks@,
                        i as int,
                        #[trigger] out@[k],
                    ),
                forall|k: int| 0 <= k < out@.len() ==> (#[trigger] out@[k]).task_id == tid,
                forall|j: int|
                    0 <= j < i && (#[trigger] self.subtasks@[j]).task_id == tid
                        ==> sub_view_has_id(out@, self.subtasks@[j].id),
                forall|k1: int, k2: int|
                    0 <= k1 < k2 < out@.len() ==> (#[trigger] out@[k1]).id != (#[trigger] out@[k2]).id,
            decreases self.subtasks@.len() - i,
        {
            if self.subtasks[i].task_id == tid {
                let ghost pre = out@;
                proof {
                    assert forall|k: int| 0 <= k < pre.len() implies (#[trigger] pre[k]).id
                        != self.subtasks@[i as int].id by {
                        assert(sub_row_in_prefix(self.subtasks@, i as int, pre[k]));
                        let j = choose|j: int|
                            0 <= j < i && (#[trigger] self.subtasks@[j]) == pre[k];
                        assert(self.subtasks@[j].id != self.subtasks@[i as int].id);
                    }
                }
                insert_sub_sorted(&mut out, copy_subtask(&self.subtasks[i]));
                proof {
                    lemma_collect_step(self.subtasks@, tid, pre, out@, i as int);
                }
            }
            i += 1;
        }
        proof {
            assert forall|k: int| 0 <= k < out@.len() implies self.has_sub_id(
                (#[trigger] out@[k]).id,
            ) && self.spec_sub(out@[k].id) == out@[k] && out@[k].task_id == tid by {
                assert(sub_row_in_prefix(self.subtasks@, self.subtasks@.len() as int, out@[k]));
                let j = choose|j: int|
                    0 <= j < self.subtasks@.len() && (#[trigger] self.subtasks@[j]) == out@[k];
                lemma_sub_at(*self, j);
            }
        }
        out
    }

    /// The daily view: every task of the user due today (live, not archived,
    /// recurring on today's weekday), joined with today's ledger row
    /// (absence reads as not completed, rank 0), completion derived from
    /// subtasks when there are any, ordered by daily rank then id.
    pub fn get_today_tasks(&self, user: u128, today: u64) -> (r: Vec<Task>)
        requires
            self.wf(),
        ensures
            tasks_sorted(r@),
            forall|k: int| 0 <= k < r@.len() ==> due_view_ok(*self, user, today, #[trigger] r@[k]),
            forall|i: int|
                0 <= i < self.tasks@.len() && task_due_on(#[trigger] self.tasks@[i], user, today)
                    ==> task_view_has_id(r@, self.tasks@[i].id),
            forall|k1: int, k2: int|
                0 <= k1 < k2 < r@.len() ==> (#[trigger] r@[k1]).id != (#[trigger] r@[k2]).id,
    {
        let wd = weekday_of_exec(today);
        let mut out: Vec<Task> = Vec::new();
        let mut i: usize = 0;
        while i < self.tasks.len()
            invariant
                self.wf(),
                i <= self.tasks@.len(),
                wd == weekday_of(today),
                tasks_sorted(out@),
                forall|k: int|
                    0 <= k < out@.len() ==> due_view_ok(*self, user, today, #[trigger] out@[k]),
                forall|k: int|
                    0 <= k < out@.len() ==> task_id_in_prefix(
                        self.tasks@,
                        i as int,
                        (#[trigger] out@[k]).id,
                    ),
                forall|j: int|
                    0 <= j < i && task_due_on(#[trigger] self.tasks@[j], user, today)
                        ==> task_view_has_id(out@, self.tasks@[j].id),
                forall|k1: int, k2: int|
                    0 <= k1 < k2 < out@.len() ==> (#[trigger] out@[k1]).id != (#[trigger] out@[k2]).id,
            decreases self.tasks@.len() - i,
        {
            let due = self.tasks[i].user == user && self.tasks[i].active && !self.tasks[i].deleted
                && crate::store::contains_day(&self.tasks[i].days, wd);
            if due {
                let tid = self.tasks[i].id;
                proof {
                    lemma_task_at(*self, i as int);
                }
                let subs = self.collect_subs(tid);
                let completed = self.effective_completed_exec(tid, today);
                let rank = self.read_ledger_rank(tid, today);
                let v = Task {
                    id: tid,
                    title: self.tasks[i].title.clone(),
                    active: self.tasks[i].active,
                    days: copy_days(&self.tasks[i].days),
                    completed,
                    priority: rank,
                    has_subtasks: self.tasks[i].has_subtasks,
                    subtasks: subs,
                };
                let ghost pre = out@;
                let ghost view = v;
                proof {
                    assert(due_view_ok(*self, user, today, view));
                    assert forall|k: int| 0 <= k < pre.len() implies (#[trigger] pre[k]).id
                        != view.id by {
                        assert(task_id_in_prefix(self.tasks@, i as int, pre[k].id));
                        let j = choose|j: int|
                            0 <= j < i && (#[trigger] self.tasks@[j]).id == pre[k].id;
                        assert(self.tasks@[j].id != self.tasks@[i as int].id);
                    }
                }
                insert_task_sorted(&mut out, v);
                proof {
                    lemma_due_step(*self, user, today, pre, out@, i as int, view);
                }
            }
            i += 1;
        }
        out
    }

    /// The management view: every live task of the user, archived or not,
    /// with its full recurrence set and subtasks, ordered by id.
    pub fn get_all_tasks(&self, user: u128) -> (r: Vec<Task>)
        requires
            self.wf(),
        ensures
            tasks_sorted(r@),
            forall|k: int| 0 <= k < r@.len() ==> all_view_ok(*self, user, #[trigger] r@[k]),
            forall|i: int|
                0 <= i < self.tasks@.len() && (#[trigger] self.tasks@[i]).user == user
                    && !self.tasks@[i].deleted ==> task_view_has_id(r@, self.tasks@[i].id),
            forall|k1: int, k2: int|
                0 <= k1 < k2 < r@.len() ==> (#[trigger] r@[k1]).id != (#[trigger] r@[k2]).id,
    {
        let mut out: Vec<Task> = Vec::new();
        let mut i: usize = 0;
        while i < self.tasks.len()
            invariant
                self.wf(),
                i <= self.tasks@.len(),
                tasks_sorted(out@),
                forall|k: int| 0 <= k < out@.len() ==> all_view_ok(*self, user, #[trigger] out@[k]),
                forall|k: int|
                    0 <= k < out@.len() ==> task_id_in_prefix(
                        self.tasks@,
                        i as int,
                        (#[trigger] out@[k]).id,
                    ),
                forall|j: int|
                    0 <= j < i && (#[trigger] self.tasks@[j]).user == user && !self.tasks@[j].deleted
                        ==> task_view_has_id(out@, self.tasks@[j].id),
                forall|k1: int, k2: int|
                    0 <= k1 < k2 < out@.len() ==> (#[trigger] out@[k1]).id != (#[trigger] out@[k2]).id,
            decreases self.tasks@.len() - i,
        {
            if self.tasks[i].user == user && !self.tasks[i].deleted {
                let tid = self.tasks[i].id;
                proof {
                    lemma_task_at(*self, i as int);
                }
                let subs = self.collect_subs(tid);
                let v = Task {
                    id: tid,
                    title: self.tasks[i].title.clone(),
                    active: self.tasks[i].active,
                    days: copy_days(&self.tasks[i].days),
                    completed: false,
                    priority: 0,
                    has_subtasks: self.tasks[i].has_subtasks,
                    subtasks: subs,
                };
                let ghost pre = out@;
                let ghost view = v;
                proof {
                    assert(all_view_ok(*self, user, view));
                    assert forall|k: int| 0 <= k < pre.len() implies (#[trigger] pre[k]).id
                        != view.id by {
                        assert(task_id_in_prefix(self.tasks@, i as int, pre[k].id));
                        let j = choose|j: int|
                            0 <= j < i && (#[trigger] self.tasks@[j]).id == pre[k].id;
                        assert(self.tasks@[j].id != self.tasks@[i as int].id);
                    }
                }
                insert_task_sorted(&mut out, v);
                proof {
                    lemma_all_step(*self, user, pre, out@, i as int, view);
                }
            }
            i += 1;
        }
        out
    }

    /// The subtasks of an owned task in display order; `NotFound` when the
    /// task does not exist or belongs to someone else.
    pub fn get_subtasks(&self, task_id: u64, user: u128) -> (r: Result<Vec<Subtask>, EngineError>)
        requires
            self.wf(),
        ensures
            r is Err <==> !self.owned_task(task_id, user),
            match r {
                Ok(sv) => subs_view_ok(*self, task_id, sv@),
                Err(e) => e == EngineError::NotFound,
            },
    {
        let ti = match self.find_task_idx(task_id) {
            Some(i) => i,
            None => {
                return Err(EngineError::NotFound);
            }
        };
        proof {
            lemma_task_at(*self, ti as int);
        }
        if self.tasks[ti].user != user {
            return Err(EngineError::NotFound);
        }
        Ok(self.collect_subs(task_id))
    }
}

} // verus!
