//! Data model of the engine: rows of the three stores, request payloads,
//! the error taxonomy, and the spec-level vocabulary the contracts use.

use vstd::prelude::*;

verus! {

/// One subtask row. A subtask belongs to exactly one task and carries its own
/// completion flag and a priority rank (counted from 0; gaps may remain after
/// deletions).
#[derive(Debug)]
pub struct Subtask {
    pub id: u64,
    pub task_id: u64,
    pub title: String,
    pub completed: bool,
    pub priority: u64,
}

/// One task row as stored: owner, soft-delete and archive flags, the set of
/// ISO weekdays it recurs on, and a cached `has_subtasks` flag that always
/// mirrors whether the subtask store holds a live row for it.
#[derive(Debug)]
pub struct TaskRec {
    pub id: u64,
    pub user: u128,
    pub title: String,
    pub active: bool,
    pub deleted: bool,
    pub has_subtasks: bool,
    pub days: Vec<u8>,
}

/// One completion-ledger row: at most one per (task, date). Absence of a row
/// means "not acted upon that day", which is distinct from a stored `false`.
#[derive(Clone, Copy, Debug)]
pub struct Completion {
    pub task_id: u64,
    pub date: u64,
    pub completed: bool,
    pub priority: u64,
}

/// A task as read paths report it: daily fields (`completed`, `priority`)
/// joined from the ledger, subtasks nested in display order.
#[derive(Debug)]
pub struct Task {
    pub id: u64,
    pub title: String,
    pub active: bool,
    pub days: Vec<u8>,
    pub completed: bool,
    pub priority: u64,
    pub has_subtasks: bool,
    pub subtasks: Vec<Subtask>,
}

/// The engine state: the task store, the subtask store and the completion
/// ledger, plus the id counters that stand in for database sequences.
#[derive(Debug)]
pub struct Store {
    pub tasks: Vec<TaskRec>,
    pub subtasks: Vec<Subtask>,
    pub completions: Vec<Completion>,
    pub next_task_id: u64,
    pub next_subtask_id: u64,
}

/// How a mutation fails. Ownership failures report `NotFound` so that other
/// users cannot learn whether a row exists.
#[derive(Clone, Copy, Debug, PartialEq, Eq, Structural)]
pub enum EngineError {
    NotFound,
}

/// Payload for creating a task, with optional initial subtask titles.
#[derive(Debug)]
pub struct CreateTaskRequest {
    pub title: String,
    pub days: Vec<u8>,
    pub subtasks: Option<Vec<String>>,
}

/// Payload for updating a task; every field is optional and only the given
/// ones are applied. A given `subtasks` list replaces the whole subtask set.
#[derive(Debug)]
pub struct UpdateTaskRequest {
    pub title: Option<String>,
    pub days: Option<Vec<u8>>,
    pub active: Option<bool>,
    pub subtasks: Option<Vec<SubtaskUpdate>>,
}

/// One entry of a full subtask replacement. `id` is informational (new
/// entries have none); replacement re-creates every row.
#[derive(Debug)]
pub struct SubtaskUpdate {
    pub id: Option<u64>,
    pub title: String,
    pub completed: Option<bool>,
}

/// Payload for appending one subtask.
#[derive(Debug)]
pub struct CreateSubtaskRequest {
    pub title: String,
}

/// Payload for editing one subtask; only the given fields are applied.
#[derive(Debug)]
pub struct UpdateSubtaskRequest {
    pub completed: Option<bool>,
    pub title: Option<String>,
}

/// Payload naming the subtask to toggle and the task it belongs to.
#[derive(Debug)]
pub struct ToggleSubtaskRequest {
    pub task_id: u64,
    pub subtask_id: u64,
}

/// Payload for reordering the daily view: ids in the desired display order.
#[derive(Debug)]
pub struct UpdatePrioritiesRequest {
    pub ordered_task_ids: Vec<u64>,
}

/// The ISO weekday (Monday = 1 .. Sunday = 7) of a day index. Day indices
/// count days from a fixed epoch Monday, so the weekday is plain arithmetic.
pub open spec fn weekday_of(day: u64) -> u8 {
    (day % 7 + 1) as u8
}

/// Whether `c` is a completion-ledger row for (`t`, `d`).
pub open spec fn rec_match(c: Completion, t: u64, d: u64) -> bool {
    c.task_id == t && c.date == d
}

/// Whether task `t` is due for `user` on day `day`: owned, live, not
/// archived, and recurring on that weekday.
pub open spec fn task_due_on(t: TaskRec, user: u128, day: u64) -> bool {
    &&& t.user == user
    &&& t.active
    &&& !t.deleted
    &&& t.days@.contains(weekday_of(day))
}

/// A valid recurrence set: ISO weekdays, strictly ascending (hence without
/// duplicates).
pub open spec fn days_ok(days: Seq<u8>) -> bool {
    &&& forall|i: int| 0 <= i < days.len() ==> 1 <= #[trigger] days[i] <= 7
    &&& forall|i: int, j: int|
        0 <= i < j < days.len() ==> #[trigger] days[i] < #[trigger] days[j]
}

/// Display order of the daily view: ascending daily priority, ties broken by
/// ascending task id.
pub open spec fn task_key_le(a: Task, b: Task) -> bool {
    a.priority < b.priority || (a.priority == b.priority && a.id <= b.id)
}

/// Display order of a subtask list: ascending rank, ties broken by ascending
/// id.
pub open spec fn sub_key_le(a: Subtask, b: Subtask) -> bool {
    a.priority < b.priority || (a.priority == b.priority && a.id <= b.id)
}

/// The sequence is sorted in display order.
pub open spec fn tasks_sorted(s: Seq<Task>) -> bool {
    forall|i: int, j: int| 0 <= i < j < s.len() ==> task_key_le(#[trigger] s[i], #[trigger] s[j])
}

/// The sequence is sorted in display order.
pub open spec fn subs_sorted(s: Seq<Subtask>) -> bool {
    forall|i: int, j: int| 0 <= i < j < s.len() ==> sub_key_le(#[trigger] s[i], #[trigger] s[j])
}

/// ASCII whitespace, the characters `trim`-style blankness is judged by.
pub open spec fn is_space(c: char) -> bool {
    c == ' ' || c == '\t' || c == '\n' || c == '\r'
}

/// A title that is empty or whitespace-only; such titles are skipped when a
/// subtask list is created or replaced.
pub open spec fn is_blank(s: Seq<char>) -> bool {
    forall|i: int| 0 <= i < s.len() ==> is_space(#[trigger] s[i])
}

/// `n` is `o` with its completion flag set to `c` and every other field kept.
pub open spec fn sub_same_but_completed(o: Subtask, n: Subtask, c: bool) -> bool {
    &&& n.id == o.id
    &&& n.task_id == o.task_id
    &&& n.title == o.title
    &&& n.priority == o.priority
    &&& n.completed == c
}

/// `n` is `o` with the given optional edits applied: a new title if one is
/// given, a new completion flag if one is given, everything else kept.
pub open spec fn sub_edited(o: Subtask, n: Subtask, title: Option<String>, completed: Option<bool>) -> bool {
    &&& n.id == o.id
    &&& n.task_id == o.task_id
    &&& n.title == (match title {
        Some(t) => t,
        None => o.title,
    })
    &&& n.completed == (match completed {
        Some(c) => c,
        None => o.completed,
    })
    &&& n.priority == o.priority
}

/// In a valid recurrence set the entry at `k` is at least `k + 1`.
pub proof fn lemma_days_bound(days: Seq<u8>, k: int)
    requires
        days_ok(days),
        0 <= k < days.len(),
    ensures
        days[k] >= k + 1,
    decreases k,
{
    if k > 0 {
        lemma_days_bound(days, k - 1);
        assert(days[k - 1] < days[k]);
    } else {
        assert(1 <= days[0]);
    }
}

/// A valid recurrence set has at most the seven ISO weekdays.
pub proof fn lemma_days_len(days: Seq<u8>)
    requires
        days_ok(days),
    ensures
        days.len() <= 7,
{
    if days.len() > 7 {
        lemma_days_bound(days, 7);
        assert(days[7] <= 7);
    }
}

/// `n` is `o` with its `has_subtasks` flag set to `b` and every other field
/// kept.
pub open spec fn task_same_but_flag(o: TaskRec, n: TaskRec, b: bool) -> bool {
    &&& n.id == o.id
    &&& n.user == o.user
    &&& n.title == o.title
    &&& n.active == o.active
    &&& n.deleted == o.deleted
    &&& n.days@ == o.days@
    &&& n.has_subtasks == b
}

/// The subtask rows that survive deleting every subtask of task `tid`, in
/// store order.
pub open spec fn drop_subs_of(s: Seq<Subtask>, tid: u64) -> Seq<Subtask>
    decreases s.len(),
{
    if s.len() == 0 {
        Seq::empty()
    } else {
        let r = drop_subs_of(s.drop_last(), tid);
        if s.last().task_id == tid {
            r
        } else {
            r.push(s.last())
        }
    }
}

/// The titles that survive the blank filter, in input order.
pub open spec fn kept_titles(ts: Seq<String>) -> Seq<String>
    decreases ts.len(),
{
    if ts.len() == 0 {
        Seq::empty()
    } else {
        let r = kept_titles(ts.drop_last());
        if is_blank(ts.last()@) {
            r
        } else {
            r.push(ts.last())
        }
    }
}

/// The freshly created subtask rows for task `tid` from an already-filtered
/// title list: ids allocated consecutively from `base`, ranks dense from 0,
/// all not completed.
pub open spec fn new_sub_rows(ts: Seq<String>, tid: u64, base: u64) -> Seq<Subtask> {
    Seq::new(
        ts.len(),
        |j: int|
            Subtask {
                id: (base + j) as u64,
                task_id: tid,
                title: ts[j],
                completed: false,
                priority: j as u64,
            },
    )
}

/// Appending a title extends the kept list exactly when the title is not
/// blank.
pub proof fn lemma_kept_step(ts: Seq<String>, t: String)
    ensures
        kept_titles(ts.push(t)) == if is_blank(t@) {
            kept_titles(ts)
        } else {
            kept_titles(ts).push(t)
        },
{
    assert(ts.push(t).drop_last() =~= ts);
    assert(ts.push(t).last() == t);
}

/// The highest rank among the subtasks of `tid`, or -1 with none.
pub open spec fn max_rank_of(s: Seq<Subtask>, tid: u64) -> int
    decreases s.len(),
{
    if s.len() == 0 {
        -1
    } else {
        let r = max_rank_of(s.drop_last(), tid);
        if s.last().task_id == tid && s.last().priority > r {
            s.last().priority as int
        } else {
            r
        }
    }
}

/// Every rank below `bound` keeps the maximum below `bound`.
pub proof fn lemma_max_rank_bound(s: Seq<Subtask>, tid: u64, bound: u64)
    requires
        forall|i: int| 0 <= i < s.len() ==> (#[trigger] s[i]).priority < bound,
    ensures
        -1 <= max_rank_of(s, tid) < bound,
    decreases s.len(),
{
    if s.len() > 0 {
        assert(forall|i: int|
            0 <= i < s.drop_last().len() ==> (#[trigger] s.drop_last()[i]).priority < bound);
        lemma_max_rank_bound(s.drop_last(), tid, bound);
        assert(s[s.len() - 1].priority < bound);
    }
}

/// The weekdays from 1 to `w` that occur in `ds`, in ascending order.
pub open spec fn days_upto(ds: Seq<u8>, w: int) -> Seq<u8>
    decreases w,
{
    if w <= 0 {
        Seq::empty()
    } else {
        let r = days_upto(ds, w - 1);
        if ds.contains(w as u8) {
            r.push(w as u8)
        } else {
            r
        }
    }
}

/// A recurrence set as the engine stores it: the given days restricted to
/// ISO weekdays 1..=7, deduplicated and sorted ascending.
pub open spec fn normalized_days(ds: Seq<u8>) -> Seq<u8> {
    days_upto(ds, 7)
}

/// The titles of a full-replacement payload, in input order.
pub open spec fn sub_update_titles(subs: Seq<SubtaskUpdate>) -> Seq<String> {
    Seq::new(subs.len(), |j: int| subs[j].title)
}

/// `n` is the task row `o` with identity and ownership kept and the
/// remaining fields set as given.
pub open spec fn task_row_edited(
    o: TaskRec,
    n: TaskRec,
    title: String,
    active: bool,
    deleted: bool,
    flag: bool,
    days: Seq<u8>,
) -> bool {
    &&& n.id == o.id
    &&& n.user == o.user
    &&& n.title == title
    &&& n.active == active
    &&& n.deleted == deleted
    &&& n.has_subtasks == flag
    &&& n.days@ == days
}

/// Appending a title to an already-filtered list appends one freshly
/// numbered row.
pub proof fn lemma_new_rows_push(ts: Seq<String>, t: String, tid: u64, base: u64)
    requires
        base as int + ts.len() < u64::MAX as int,
    ensures
        new_sub_rows(ts.push(t), tid, base) == new_sub_rows(ts, tid, base).push(
            (Subtask {
                id: (base + ts.len()) as u64,
                task_id: tid,
                title: t,
                completed: false,
                priority: ts.len() as u64,
            }),
        ),
{
    assert(new_sub_rows(ts.push(t), tid, base) =~= new_sub_rows(ts, tid, base).push(
        (Subtask {
            id: (base + ts.len()) as u64,
            task_id: tid,
            title: t,
            completed: false,
            priority: ts.len() as u64,
        }),
    ));
}

/// Every survivor of the drop is a row of the input sequence.
pub proof fn lemma_drop_subs_mem(s: Seq<Subtask>, tid: u64)
    ensures
        forall|k: int|
            0 <= k < drop_subs_of(s, tid).len() ==> exists|i: int|
                0 <= i < s.len() && s[i] == #[trigger] drop_subs_of(s, tid)[k],
    decreases s.len(),
{
    if s.len() > 0 {
        lemma_drop_subs_mem(s.drop_last(), tid);
        let d = drop_subs_of(s, tid);
        let dp = drop_subs_of(s.drop_last(), tid);
        assert forall|k: int| 0 <= k < d.len() implies exists|i: int|
            0 <= i < s.len() && s[i] == #[trigger] d[k] by {
            if k < dp.len() {
                assert(d[k] == dp[k]);
                let i = choose|i: int| 0 <= i < s.drop_last().len() && s.drop_last()[i] == dp[k];
                assert(s[i] == d[k]);
            } else {
                assert(s[s.len() - 1] == d[k]);
            }
        }
    }
}

/// Dropping keeps ids pairwise distinct.
pub proof fn lemma_drop_subs_distinct(s: Seq<Subtask>, tid: u64)
    requires
        forall|i: int, j: int| 0 <= i < j < s.len() ==> (#[trigger] s[i]).id != (#[trigger] s[j]).id,
    ensures
        forall|a: int, b: int|
            0 <= a < b < drop_subs_of(s, tid).len()
                ==> (#[trigger] drop_subs_of(s, tid)[a]).id != (#[trigger] drop_subs_of(s, tid)[b]).id,
    decreases s.len(),
{
    if s.len() > 0 {
        let pre = s.drop_last();
        assert(forall|i: int, j: int|
            0 <= i < j < pre.len() ==> (#[trigger] pre[i]).id != (#[trigger] pre[j]).id);
        lemma_drop_subs_distinct(pre, tid);
        lemma_drop_subs_mem(pre, tid);
        let d = drop_subs_of(s, tid);
        let dp = drop_subs_of(pre, tid);
        assert forall|a: int, b: int| 0 <= a < b < d.len() implies (#[trigger] d[a]).id
            != (#[trigger] d[b]).id by {
            if b < dp.len() {
                assert(d[a] == dp[a]);
                assert(d[b] == dp[b]);
            } else {
                assert(b == dp.len() && d.len() == dp.len() + 1);
                assert(d[b] == s[s.len() - 1]);
                assert(d[a] == dp[a]);
                let i = choose|i: int| 0 <= i < pre.len() && pre[i] == dp[a];
                assert(s[i] == dp[a]);
                assert(s[i].id != s[s.len() - 1].id);
            }
        }
    }
}

/// A row of another task survives the drop.
pub proof fn lemma_drop_subs_keeps(s: Seq<Subtask>, tid: u64, j: int)
    requires
        0 <= j < s.len(),
        s[j].task_id != tid,
    ensures
        drop_subs_of(s, tid).contains(s[j]),
    decreases s.len(),
{
    if s.len() > 0 {
        let d = drop_subs_of(s, tid);
        let dp = drop_subs_of(s.drop_last(), tid);
        if j == s.len() - 1 {
            assert(d[dp.len() as int] == s[j]);
            assert(d.contains(s[j]));
        } else {
            assert(s.drop_last()[j] == s[j]);
            lemma_drop_subs_keeps(s.drop_last(), tid, j);
            let k = choose|k: int| 0 <= k < dp.len() && dp[k] == s[j];
            assert(d[k] == s[j]);
            assert(d.contains(s[j]));
        }
    }
}

/// A store with no row of `tid` survives the drop unchanged.
pub proof fn lemma_drop_subs_none(s: Seq<Subtask>, tid: u64)
    requires
        forall|i: int| 0 <= i < s.len() ==> (#[trigger] s[i]).task_id != tid,
    ensures
        drop_subs_of(s, tid) == s,
    decreases s.len(),
{
    if s.len() > 0 {
        assert(forall|i: int|
            0 <= i < s.drop_last().len() ==> (#[trigger] s.drop_last()[i]).task_id != tid);
        lemma_drop_subs_none(s.drop_last(), tid);
        assert(s[s.len() - 1].task_id != tid);
        assert(drop_subs_of(s, tid) == s.drop_last().push(s.last()));
        assert(s.drop_last().push(s.last()) =~= s);
    }
}

/// The position of the last occurrence of `t` in `ids`, or -1 when absent.
/// Reordering writes positions as ranks, so with a duplicated id the later
/// position wins.
pub open spec fn last_rank_of(ids: Seq<u64>, t: u64) -> int
    decreases ids.len(),
{
    if ids.len() == 0 {
        -1
    } else if ids[ids.len() - 1] == t {
        ids.len() - 1
    } else {
        last_rank_of(ids.drop_last(), t)
    }
}

/// `last_rank_of` is a position of `t` exactly when `t` occurs.
pub proof fn lemma_last_rank(ids: Seq<u64>, t: u64)
    ensures
        ids.contains(t) <==> 0 <= last_rank_of(ids, t) < ids.len(),
        ids.contains(t) ==> ids[last_rank_of(ids, t)] == t,
        !ids.contains(t) ==> last_rank_of(ids, t) == -1,
    decreases ids.len(),
{
    if ids.len() > 0 {
        let pre = ids.drop_last();
        lemma_last_rank(pre, t);
        if ids[ids.len() - 1] == t {
            assert(ids.contains(t));
        } else {
            if ids.contains(t) {
                let i = choose|i: int| 0 <= i < ids.len() && ids[i] == t;
                assert(i < ids.len() - 1);
                assert(pre[i] == t);
                assert(pre.contains(t));
            }
            if pre.contains(t) {
                let i = choose|i: int| 0 <= i < pre.len() && pre[i] == t;
                assert(ids[i] == t);
                assert(ids.contains(t));
            }
        }
    }
}

/// Appending `x` makes the appended position its last rank and changes
/// nothing for other ids.
pub proof fn lemma_last_rank_push(s: Seq<u64>, x: u64)
    ensures
        last_rank_of(s.push(x), x) == s.len(),
        forall|t: u64| t != x ==> last_rank_of(s.push(x), t) == last_rank_of(s, t),
        forall|t: u64| #[trigger] s.push(x).contains(t) <==> s.contains(t) || t == x,
{
    let p = s.push(x);
    assert(p.drop_last() =~= s);
    assert(p[p.len() - 1] == x);
    assert forall|t: u64| #[trigger] p.contains(t) <==> s.contains(t) || t == x by {
        if p.contains(t) {
            let i = choose|i: int| 0 <= i < p.len() && p[i] == t;
            if i < s.len() {
                assert(s[i] == t);
                assert(s.contains(t));
            }
        }
        if s.contains(t) {
            let i = choose|i: int| 0 <= i < s.len() && s[i] == t;
            assert(p[i] == t);
            assert(p.contains(t));
        }
        if t == x {
            assert(p[p.len() - 1] == t);
            assert(p.contains(t));
        }
    }
}

/// The completion ledgers of `a` and `b` agree on every key whose date is
/// not `d` or whose task does not occur in `ids`.
pub open spec fn ledger_agree_outside(a: Store, b: Store, ids: Seq<u64>, d: u64) -> bool {
    forall|t2: u64, d2: u64|
        #![trigger a.has_record(t2, d2)]
        #![trigger b.has_record(t2, d2)]
        #![trigger a.ledger_completed(t2, d2)]
        #![trigger b.ledger_completed(t2, d2)]
        #![trigger a.ledger_rank(t2, d2)]
        #![trigger b.ledger_rank(t2, d2)]
        (d2 != d || !ids.contains(t2)) ==> {
            &&& a.has_record(t2, d2) == b.has_record(t2, d2)
            &&& a.ledger_completed(t2, d2) == b.ledger_completed(t2, d2)
            &&& a.ledger_rank(t2, d2) == b.ledger_rank(t2, d2)
        }
}

/// The net effect of reordering the daily view of `d` by `ids`: every listed
/// task has a ledger row ranked by its last position, with its stored
/// completion value carried over (false when it had no row), and every other
/// key is untouched.
pub open spec fn reorder_applied(pre: Store, cur: Store, ids: Seq<u64>, d: u64) -> bool {
    &&& forall|t: u64|
        #[trigger] ids.contains(t) ==> cur.has_record(t, d) && cur.ledger_rank(t, d)
            == last_rank_of(ids, t) as u64 && cur.ledger_completed(t, d) == pre.ledger_completed(
            t,
            d,
        )
    &&& ledger_agree_outside(pre, cur, ids, d)
}

/// Every survivor of the drop belongs to another task.
pub proof fn lemma_drop_subs_not_tid(s: Seq<Subtask>, tid: u64)
    ensures
        forall|k: int|
            0 <= k < drop_subs_of(s, tid).len()
                ==> (#[trigger] drop_subs_of(s, tid)[k]).task_id != tid,
    decreases s.len(),
{
    if s.len() > 0 {
        lemma_drop_subs_not_tid(s.drop_last(), tid);
        let d = drop_subs_of(s, tid);
        let dp = drop_subs_of(s.drop_last(), tid);
        assert forall|k: int| 0 <= k < d.len() implies (#[trigger] d[k]).task_id != tid by {
            if k < dp.len() {
                assert(d[k] == dp[k]);
            } else {
                assert(d[k] == s.last());
            }
        }
    }
}

/// The net effect of toggling subtask `subtask_id` of task `task_id` on day
/// `today`: exactly that subtask's completion flag is negated, everything
/// else in the subtask store is kept in place, and the parent's ledger row
/// for today is upserted to "all subtasks completed" with its rank kept.
pub open spec fn toggle_subtask_applied(
    pre: Store,
    post: Store,
    task_id: u64,
    subtask_id: u64,
    today: u64,
) -> bool {
    &&& post.tasks@ == pre.tasks@
    &&& post.next_task_id == pre.next_task_id
    &&& post.next_subtask_id == pre.next_subtask_id
    &&& post.subtasks@.len() == pre.subtasks@.len()
    &&& forall|j: int|
        0 <= j < pre.subtasks@.len() ==> sub_same_but_completed(
            pre.subtasks@[j],
            #[trigger] post.subtasks@[j],
            if pre.subtasks@[j].id == subtask_id {
                !pre.subtasks@[j].completed
            } else {
                pre.subtasks@[j].completed
            },
        )
    &&& post.has_record(task_id, today)
    &&& post.ledger_completed(task_id, today) == post.all_subs_completed(task_id)
    &&& post.ledger_rank(task_id, today) == pre.ledger_rank(task_id, today)
    &&& ledger_agree_except(pre, post, task_id, today)
}

/// The completion ledgers of `a` and `b` agree on every key other than
/// (`t`, `d`): same presence, same stored value, same stored rank.
pub open spec fn ledger_agree_except(a: Store, b: Store, t: u64, d: u64) -> bool {
    forall|t2: u64, d2: u64|
        #![trigger a.has_record(t2, d2)]
        #![trigger b.has_record(t2, d2)]
        #![trigger a.ledger_completed(t2, d2)]
        #![trigger b.ledger_completed(t2, d2)]
        #![trigger a.ledger_rank(t2, d2)]
        #![trigger b.ledger_rank(t2, d2)]
        !(t2 == t && d2 == d) ==> {
            &&& a.has_record(t2, d2) == b.has_record(t2, d2)
            &&& a.ledger_completed(t2, d2) == b.ledger_completed(t2, d2)
            &&& a.ledger_rank(t2, d2) == b.ledger_rank(t2, d2)
        }
}

impl Store {
    /// Some task row has this id.
    pub open spec fn task_with_id(self, id: u64) -> bool {
        exists|i: int| 0 <= i < self.tasks@.len() && (#[trigger] self.tasks@[i]).id == id
    }

    /// The index of the task row with this id (well-defined under `wf`).
    pub open spec fn task_index(self, id: u64) -> int {
        choose|i: int| 0 <= i < self.tasks@.len() && (#[trigger] self.tasks@[i]).id == id
    }

    /// The task row with this id (well-defined under `wf`).
    pub open spec fn spec_task(self, id: u64) -> TaskRec {
        self.tasks@[self.task_index(id)]
    }

    /// The task exists and belongs to `user`: the ownership test every
    /// task-scoped operation starts with.
    pub open spec fn owned_task(self, id: u64, user: u128) -> bool {
        self.task_with_id(id) && self.spec_task(id).user == user
    }

    /// Some subtask row has this id (subtask ids are unique store-wide).
    pub open spec fn has_sub_id(self, sid: u64) -> bool {
        exists|i: int| 0 <= i < self.subtasks@.len() && (#[trigger] self.subtasks@[i]).id == sid
    }

    /// The index of the subtask row with this id (well-defined under `wf`).
    pub open spec fn sub_index(self, sid: u64) -> int {
        choose|i: int| 0 <= i < self.subtasks@.len() && (#[trigger] self.subtasks@[i]).id == sid
    }

    /// The subtask row with this id (well-defined under `wf`).
    pub open spec fn spec_sub(self, sid: u64) -> Subtask {
        self.subtasks@[self.sub_index(sid)]
    }

    /// The task has at least one subtask row.
    pub open spec fn has_subs(self, tid: u64) -> bool {
        exists|i: int| 0 <= i < self.subtasks@.len() && (#[trigger] self.subtasks@[i]).task_id == tid
    }

    /// Every subtask of the task is completed (vacuously true with none).
    pub open spec fn all_subs_completed(self, tid: u64) -> bool {
        forall|i: int|
            0 <= i < self.subtasks@.len() && (#[trigger] self.subtasks@[i]).task_id == tid
                ==> self.subtasks@[i].completed
    }

    /// A ledger row for (`t`, `d`) exists.
    pub open spec fn has_record(self, t: u64, d: u64) -> bool {
        exists|i: int| 0 <= i < self.completions@.len() && rec_match(#[trigger] self.completions@[i], t, d)
    }

    /// The index of the ledger row for (`t`, `d`) (well-defined under `wf`).
    pub open spec fn rec_index(self, t: u64, d: u64) -> int {
        choose|i: int| 0 <= i < self.completions@.len() && rec_match(#[trigger] self.completions@[i], t, d)
    }

    /// The ledger row for (`t`, `d`) (well-defined under `wf`).
    pub open spec fn spec_record(self, t: u64, d: u64) -> Completion {
        self.completions@[self.rec_index(t, d)]
    }

    /// The stored completion value for (`t`, `d`), defaulting to false when no
    /// row exists.
    pub open spec fn ledger_completed(self, t: u64, d: u64) -> bool {
        self.has_record(t, d) && self.spec_record(t, d).completed
    }

    /// The stored daily priority for (`t`, `d`), defaulting to 0 when no row
    /// exists.
    pub open spec fn ledger_rank(self, t: u64, d: u64) -> u64 {
        if self.has_record(t, d) {
            self.spec_record(t, d).priority
        } else {
            0
        }
    }

    /// The completion value read paths report for a task on a date: derived
    /// from the subtasks when there are any, else the stored ledger value.
    pub open spec fn effective_completed(self, tid: u64, d: u64) -> bool {
        if self.has_subs(tid) {
            self.all_subs_completed(tid)
        } else {
            self.ledger_completed(tid, d)
        }
    }

    /// Well-formedness: unique ids and ledger keys, id counters ahead of every
    /// allocated id and rank, the `has_subtasks` flag in sync with the subtask
    /// store, and valid recurrence sets.
    pub open spec fn wf(self) -> bool {
        &&& forall|i: int, j: int|
            0 <= i < j < self.tasks@.len()
                ==> (#[trigger] self.tasks@[i]).id != (#[trigger] self.tasks@[j]).id
        &&& forall|i: int, j: int|
            0 <= i < j < self.subtasks@.len()
                ==> (#[trigger] self.subtasks@[i]).id != (#[trigger] self.subtasks@[j]).id
        &&& forall|i: int, j: int|
            0 <= i < j < self.completions@.len()
                ==> !((#[trigger] self.completions@[i]).task_id == (#[trigger] self.completions@[j]).task_id
                    && self.completions@[i].date == self.completions@[j].date)
        &&& forall|i: int| 0 <= i < self.tasks@.len() ==> (#[trigger] self.tasks@[i]).id < self.next_task_id
        &&& forall|i: int|
            0 <= i < self.subtasks@.len() ==> (#[trigger] self.subtasks@[i]).id < self.next_subtask_id
        &&& forall|i: int|
            0 <= i < self.subtasks@.len()
                ==> (#[trigger] self.subtasks@[i]).priority < self.next_subtask_id
        &&& forall|i: int|
            0 <= i < self.subtasks@.len()
                ==> (#[trigger] self.subtasks@[i]).task_id < self.next_task_id
        &&& forall|i: int|
            0 <= i < self.tasks@.len()
                ==> (#[trigger] self.tasks@[i]).has_subtasks == self.has_subs(self.tasks@[i].id)
        &&& forall|i: int| 0 <= i < self.tasks@.len() ==> days_ok((#[trigger] self.tasks@[i]).days@)
    }

    /// Both states hold exactly the same rows and counters.
    pub open spec fn same_state(self, other: Store) -> bool {
        &&& self.tasks@ == other.tasks@
        &&& self.subtasks@ == other.subtasks@
        &&& self.completions@ == other.completions@
        &&& self.next_task_id == other.next_task_id
        &&& self.next_subtask_id == other.next_subtask_id
    }

    /// An empty store; id counters start at 1 as database sequences do.
    pub fn new() -> (r: Store)
        ensures
            r.wf(),
            r.tasks@.len() == 0,
            r.subtasks@.len() == 0,
            r.completions@.len() == 0,
    {
        Store {
            tasks: Vec::new(),
            subtasks: Vec::new(),
            completions: Vec::new(),
            next_task_id: 1,
            next_subtask_id: 1,
        }
    }
}

} // verus!
