//! The statistics aggregator: a 30-day completion heatmap and a running
//! summary, both pure reads over the stores.
//!
//! Scheduled work for a historical date counts the tasks due on that
//! weekday plus their still-incomplete subtasks taken from the *current*
//! subtask store; completed work counts that date's completed ledger rows
//! among the user's tasks plus the currently-completed subtasks of the due
//! tasks. Blending live subtask state into historical days is deliberate:
//! the history approximates, it does not replay.

use vstd::prelude::*;

use crate::model::{task_due_on, Store};
use crate::store::{contains_day, lemma_task_at};
use crate::reads::weekday_of_exec;

verus! {

/// A day of history: the day index and its completion percentage.
#[derive(Clone, Copy, Debug)]
pub struct HeatPoint {
    pub date: u64,
    pub percent: u128,
}

/// The running summary of the user's history.
#[derive(Clone, Copy, Debug)]
pub struct StatsSummary {
    pub total_created: u64,
    pub total_completed_ever: u64,
    pub total_scheduled_days: u128,
    pub success_rate: u128,
    pub today_percent: u128,
}

/// The full statistics payload: 30 days of history plus the summary.
#[derive(Debug)]
pub struct Stats {
    pub history: Vec<HeatPoint>,
    pub summary: StatsSummary,
}

/// The task named by `tid` exists and is due for `user` on `day`.
pub open spec fn parent_due(s: Store, user: u128, day: u64, tid: u64) -> bool {
    s.task_with_id(tid) && task_due_on(s.spec_task(tid), user, day)
}

/// Tasks among the first `n` rows due for `user` on `day`.
pub open spec fn count_due_upto(s: Store, user: u128, day: u64, n: int) -> int
    decreases n,
{
    if n <= 0 {
        0
    } else {
        count_due_upto(s, user, day, n - 1) + if task_due_on(s.tasks@[n - 1], user, day) {
            1int
        } else {
            0int
        }
    }
}

/// Tasks due for `user` on `day`.
pub open spec fn count_due(s: Store, user: u128, day: u64) -> int {
    count_due_upto(s, user, day, s.tasks@.len() as int)
}

/// Still-incomplete subtasks among the first `n` rows whose parent is due on
/// `day`.
pub open spec fn count_sched_subs_upto(s: Store, user: u128, day: u64, n: int) -> int
    decreases n,
{
    if n <= 0 {
        0
    } else {
        count_sched_subs_upto(s, user, day, n - 1) + if !s.subtasks@[n - 1].completed
            && parent_due(s, user, day, s.subtasks@[n - 1].task_id) {
            1int
        } else {
            0int
        }
    }
}

/// Still-incomplete subtasks whose parent is due on `day`.
pub open spec fn count_sched_subs(s: Store, user: u128, day: u64) -> int {
    count_sched_subs_upto(s, user, day, s.subtasks@.len() as int)
}

/// The ledger row belongs to a task of `user`.
pub open spec fn rec_of_user(s: Store, user: u128, tid: u64) -> bool {
    s.task_with_id(tid) && s.spec_task(tid).user == user
}

/// Completed ledger rows for date `d` among the first `n` rows that belong
/// to the user's tasks.
pub open spec fn count_done_recs_upto(s: Store, user: u128, d: u64, n: int) -> int
    decreases n,
{
    if n <= 0 {
        0
    } else {
        count_done_recs_upto(s, user, d, n - 1) + if s.completions@[n - 1].date == d
            && s.completions@[n - 1].completed && rec_of_user(s, user, s.completions@[n - 1].task_id) {
            1int
        } else {
            0int
        }
    }
}

/// Completed ledger rows for date `d` among the user's tasks.
pub open spec fn count_done_recs(s: Store, user: u128, d: u64) -> int {
    count_done_recs_upto(s, user, d, s.completions@.len() as int)
}

/// Currently-completed subtasks among the first `n` rows whose parent is due
/// on `day`.
pub open spec fn count_done_subs_upto(s: Store, user: u128, day: u64, n: int) -> int
    decreases n,
{
    if n <= 0 {
        0
    } else {
        count_done_subs_upto(s, user, day, n - 1) + if s.subtasks@[n - 1].completed && parent_due(
            s,
            user,
            day,
            s.subtasks@[n - 1].task_id,
        ) {
            1int
        } else {
            0int
        }
    }
}

/// Currently-completed subtasks whose parent is due on `day`.
pub open spec fn count_done_subs(s: Store, user: u128, day: u64) -> int {
    count_done_subs_upto(s, user, day, s.subtasks@.len() as int)
}

/// Completed ledger rows of the user's tasks, over all dates, among the
/// first `n` rows.
pub open spec fn count_done_ever_upto(s: Store, user: u128, n: int) -> int
    decreases n,
{
    if n <= 0 {
        0
    } else {
        count_done_ever_upto(s, user, n - 1) + if s.completions@[n - 1].completed && rec_of_user(
            s,
            user,
            s.completions@[n - 1].task_id,
        ) {
            1int
        } else {
            0int
        }
    }
}

/// Completed ledger rows of the user's tasks, over all dates.
pub open spec fn count_done_ever(s: Store, user: u128) -> int {
    count_done_ever_upto(s, user, s.completions@.len() as int)
}

/// Live (not deleted) tasks of the user among the first `n` rows.
pub open spec fn count_created_upto(s: Store, user: u128, n: int) -> int
    decreases n,
{
    if n <= 0 {
        0
    } else {
        count_created_upto(s, user, n - 1) + if s.tasks@[n - 1].user == user && !s.tasks@[n
            - 1].deleted {
            1int
        } else {
            0int
        }
    }
}

/// Live (not deleted) tasks of the user.
pub open spec fn count_created(s: Store, user: u128) -> int {
    count_created_upto(s, user, s.tasks@.len() as int)
}

/// Distinct (task, weekday) recurrence pairs of the user's live, not
/// archived tasks, among the first `n` rows: the capacity measure the
/// success rate divides by.
pub open spec fn count_sched_days_upto(s: Store, user: u128, n: int) -> int
    decreases n,
{
    if n <= 0 {
        0
    } else {
        count_sched_days_upto(s, user, n - 1) + if s.tasks@[n - 1].user == user && !s.tasks@[n
            - 1].deleted && s.tasks@[n - 1].active {
            s.tasks@[n - 1].days@.len() as int
        } else {
            0int
        }
    }
}

/// Distinct (task, weekday) recurrence pairs of the user's live, not
/// archived tasks.
pub open spec fn count_sched_days(s: Store, user: u128) -> int {
    count_sched_days_upto(s, user, s.tasks@.len() as int)
}

/// Completed over scheduled, scaled to 100 and rounded half-up; 0 when
/// nothing is scheduled.
pub open spec fn percent_round(c: int, t: int) -> int {
    if t <= 0 {
        0
    } else {
        (200 * c + t) / (2 * t)
    }
}

/// The scheduled count of one heatmap day.
pub open spec fn spec_heat_scheduled(s: Store, user: u128, d: u64) -> int {
    count_due(s, user, d) + count_sched_subs(s, user, d)
}

/// The completed count of one heatmap day.
pub open spec fn spec_heat_completed(s: Store, user: u128, d: u64) -> int {
    count_done_recs(s, user, d) + count_done_subs(s, user, d)
}

/// The percentage of one heatmap day.
pub open spec fn spec_heat_percent(s: Store, user: u128, d: u64) -> int {
    percent_round(spec_heat_completed(s, user, d), spec_heat_scheduled(s, user, d))
}

/// Completed over scheduled, scaled to 100 and rounded half-up.
fn percent_of(c: u128, t: u128) -> (r: u128)
    requires
        c < 0x100000000000000000000,
        t < 0x100000000000000000000,
    ensures
        r == percent_round(c as int, t as int),
{
    if t == 0 {
        0
    } else {
        (200 * c + t) / (2 * t)
    }
}

impl Store {
    /// Whether the task is due for `user` on `day` (executable form).
    fn is_due(&self, ti: usize, user: u128, day: u64) -> (r: bool)
        requires
            ti < self.tasks@.len(),
        ensures
            r == task_due_on(self.tasks@[ti as int], user, day),
    {
        let wd = weekday_of_exec(day);
        self.tasks[ti].user == user && self.tasks[ti].active && !self.tasks[ti].deleted
            && contains_day(&self.tasks[ti].days, wd)
    }

    /// Whether `tid` names a task due for `user` on `day`.
    fn parent_due_exec(&self, tid: u64, user: u128, day: u64) -> (r: bool)
        requires
            self.wf(),
        ensures
            r == parent_due(*self, user, day, tid),
    {
        match self.find_task_idx(tid) {
            Some(ti) => {
                proof {
                    lemma_task_at(*self, ti as int);
                }
                self.is_due(ti, user, day)
            }
            None => false,
        }
    }

    /// The number of tasks due for `user` on `day`.
    fn count_due_exec(&self, user: u128, day: u64) -> (r: u64)
        requires
            self.wf(),
        ensures
            r == count_due(*self, user, day),
    {
        let mut r: u64 = 0;
        let mut i: usize = 0;
        while i < self.tasks.len()
            invariant
                self.wf(),
                i <= self.tasks@.len(),
                r == count_due_upto(*self, user, day, i as int),
                r <= i,
            decreases self.tasks@.len() - i,
        {
            if self.is_due(i, user, day) {
                r = r + 1;
            }
            i += 1;
        }
        r
    }

    /// The number of still-incomplete subtasks whose parent is due on `day`.
    fn count_sched_subs_exec(&self, user: u128, day: u64) -> (r: u64)
        requires
            self.wf(),
        ensures
            r == count_sched_subs(*self, user, day),
    {
        let mut r: u64 = 0;
        let mut i: usize = 0;
        while i < self.subtasks.len()
            invariant
                self.wf(),
                i <= self.subtasks@.len(),
                r == count_sched_subs_upto(*self, user, day, i as int),
                r <= i,
            decreases self.subtasks@.len() - i,
        {
            if !self.subtasks[i].completed && self.parent_due_exec(self.subtasks[i].task_id, user, day) {
                r = r + 1;
            }
            i += 1;
        }
        r
    }

    /// The number of currently-completed subtasks whose parent is due on
    /// `day`.
    fn count_done_subs_exec(&self, user: u128, day: u64) -> (r: u64)
        requires
            self.wf(),
        ensures
            r == count_done_subs(*self, user, day),
    {
        let mut r: u64 = 0;
        let mut i: usize = 0;
        while i < self.subtasks.len()
            invariant
                self.wf(),
                i <= self.subtasks@.len(),
                r == count_done_subs_upto(*self, user, day, i as int),
                r <= i,
            decreases self.subtasks@.len() - i,
        {
            if self.subtasks[i].completed && self.parent_due_exec(self.subtasks[i].task_id, user, day) {
                r = r + 1;
            }
            i += 1;
        }
        r
    }

    /// Whether `tid` names a task of `user`.
    fn rec_of_user_exec(&self, tid: u64, user: u128) -> (r: bool)
        requires
            self.wf(),
        ensures
            r == rec_of_user(*self, user, tid),
    {
        match self.find_task_idx(tid) {
            Some(ti) => {
                proof {
                    lemma_task_at(*self, ti as int);
                }
                self.tasks[ti].user == user
            }
            None => false,
        }
    }

    /// The number of completed ledger rows for date `d` among the user's
    /// tasks.
    fn count_done_recs_exec(&self, user: u128, d: u64) -> (r: u64)
        requires
            self.wf(),
        ensures
            r == count_done_recs(*self, user, d),
    {
        let mut r: u64 = 0;
        let mut i: usize = 0;
        while i < self.completions.len()
            invariant
                self.wf(),
                i <= self.completions@.len(),
                r == count_done_recs_upto(*self, user, d, i as int),
                r <= i,
            decreases self.completions@.len() - i,
        {
            if self.completions[i].date == d && self.completions[i].completed
                && self.rec_of_user_exec(self.completions[i].task_id, user) {
                r = r + 1;
            }
            i += 1;
        }
        r
    }

    /// The number of completed ledger rows of the user's tasks, ever.
    fn count_done_ever_exec(&self, user: u128) -> (r: u64)
        requires
            self.wf(),
        ensures
            r == count_done_ever(*self, user),
    {
        let mut r: u64 = 0;
        let mut i: usize = 0;
        while i < self.completions.len()
            invariant
                self.wf(),
                i <= self.completions@.len(),
                r == count_done_ever_upto(*self, user, i as int),
                r <= i,
            decreases self.completions@.len() - i,
        {
            if self.completions[i].completed && self.rec_of_user_exec(self.completions[i].task_id, user) {
                r = r + 1;
            }
            i += 1;
        }
        r
    }

    /// The number of live tasks of the user.
    fn count_created_exec(&self, user: u128) -> (r: u64)
        requires
            self.wf(),
        ensures
            r == count_created(*self, user),
    {
        let mut r: u64 = 0;
        let mut i: usize = 0;
        while i < self.tasks.len()
            invariant
                self.wf(),
                i <= self.tasks@.len(),
                r == count_created_upto(*self, user, i as int),
                r <= i,
            decreases self.tasks@.len() - i,
        {
            if self.tasks[i].user == user && !self.tasks[i].deleted {
                r = r + 1;
            }
            i += 1;
        }
        r
    }

    /// The number of (task, weekday) recurrence pairs of the user's live,
    /// not archived tasks.
    fn count_sched_days_exec(&self, user: u128) -> (r: u128)
        requires
            self.wf(),
        ensures
            r == count_sched_days(*self, user),
            r < 0x100000000000000000000,
    {
        let mut r: u128 = 0;
        let mut i: usize = 0;
        while i < self.tasks.len()
            invariant
                self.wf(),
                i <= self.tasks@.len(),
                r == count_sched_days_upto(*self, user, i as int),
                r <= 7 * (i as u128),
            decreases self.tasks@.len() - i,
        {
            if self.tasks[i].user == user && !self.tasks[i].deleted && self.tasks[i].active {
                proof {
                    crate::model::lemma_days_len(self.tasks@[i as int].days@);
                }
                r = r + self.tasks[i].days.len() as u128;
            }
            i += 1;
        }
        r
    }

    /// One heatmap day: completed over scheduled for day `d`, as the module
    /// doc describes the two counts.
    fn heat_percent_exec(&self, user: u128, d: u64) -> (r: u128)
        requires
            self.wf(),
        ensures
            r == spec_heat_percent(*self, user, d),
    {
        let sched: u128 = self.count_due_exec(user, d) as u128 + self.count_sched_subs_exec(
            user,
            d,
        ) as u128;
        let done: u128 = self.count_done_recs_exec(user, d) as u128 + self.count_done_subs_exec(
            user,
            d,
        ) as u128;
        percent_of(done, sched)
    }

    /// The 30-day heatmap: one point per day of the inclusive range
    /// [`today` − 29, `today`], oldest first.
    pub fn heatmap(&self, user: u128, today: u64) -> (r: Vec<HeatPoint>)
        requires
            self.wf(),
            today >= 29,
        ensures
            r@.len() == 30,
            forall|k: int|
                0 <= k < 30 ==> (#[trigger] r@[k]).date == today - 29 + k && r@[k].percent
                    == spec_heat_percent(*self, user, (today - 29 + k) as u64),
    {
        let mut out: Vec<HeatPoint> = Vec::new();
        let mut k: u64 = 0;
        while k < 30
            invariant
                self.wf(),
                today >= 29,
                k <= 30,
                out@.len() == k,
                forall|j: int|
                    0 <= j < k ==> (#[trigger] out@[j]).date == today - 29 + j && out@[j].percent
                        == spec_heat_percent(*self, user, (today - 29 + j) as u64),
            decreases 30 - k,
        {
            let d = today - 29 + k;
            let percent = self.heat_percent_exec(user, d);
            out.push(HeatPoint { date: d, percent });
            k += 1;
        }
        out
    }

    /// The running summary: live task count, completed ledger rows ever,
    /// recurrence capacity, the success rate of the two, and today's
    /// percentage computed exactly like a heatmap point.
    pub fn summary(&self, user: u128, today: u64) -> (r: StatsSummary)
        requires
            self.wf(),
        ensures
            r.total_created == count_created(*self, user),
            r.total_completed_ever == count_done_ever(*self, user),
            r.total_scheduled_days == count_sched_days(*self, user),
            r.success_rate == percent_round(count_done_ever(*self, user), count_sched_days(*self, user)),
            r.today_percent == spec_heat_percent(*self, user, today),
    {
        let total_created = self.count_created_exec(user);
        let total_completed_ever = self.count_done_ever_exec(user);
        let total_scheduled_days = self.count_sched_days_exec(user);
        let success_rate = percent_of(total_completed_ever as u128, total_scheduled_days);
        let today_percent = self.heat_percent_exec(user, today);
        StatsSummary {
            total_created,
            total_completed_ever,
            total_scheduled_days,
            success_rate,
            today_percent,
        }
    }

    /// The statistics endpoint payload: the 30-day heatmap and the summary.
    pub fn get_stats(&self, user: u128, today: u64) -> (r: Stats)
        requires
            self.wf(),
            today >= 29,
        ensures
            r.history@.len() == 30,
            forall|k: int|
                0 <= k < 30 ==> (#[trigger] r.history@[k]).date == today - 29 + k
                    && r.history@[k].percent == spec_heat_percent(*self, user, (today - 29 + k) as u64),
            r.summary.total_created == count_created(*self, user),
            r.summary.total_completed_ever == count_done_ever(*self, user),
            r.summary.total_scheduled_days == count_sched_days(*self, user),
            r.summary.success_rate == percent_round(
                count_done_ever(*self, user),
                count_sched_days(*self, user),
            ),
            r.summary.today_percent == spec_heat_percent(*self, user, today),
    {
        let history = self.heatmap(user, today);
        let summary = self.summary(user, today);
        Stats { history, summary }
    }
}

} // verus!
