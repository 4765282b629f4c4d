//! Row lookups over the store and the uniqueness lemmas that make the
//! `choose`-based accessors of [`crate::model`] well-defined.

use vstd::prelude::*;
use vstd::string::StrSliceExecFns;

use crate::model::{days_ok, days_upto, is_blank, is_space, normalized_days, rec_match, Store, Subtask};

verus! {

/// Whether the title is empty or ASCII-whitespace-only.
pub fn is_blank_exec(s: &str) -> (r: bool)
    ensures
        r == is_blank(s@),
{
    let n = s.unicode_len();
    let mut i: usize = 0;
    while i < n
        invariant
            n == s@.len(),
            i <= n,
            forall|j: int| 0 <= j < i ==> is_space(#[trigger] s@[j]),
        decreases n - i,
    {
        let c = s.get_char(i);
        if !(c == ' ' || c == '\t' || c == '\n' || c == '\r') {
            return false;
        }
        i += 1;
    }
    true
}

/// Whether the weekday occurs in the list.
pub(crate) fn contains_day(ds: &Vec<u8>, w: u8) -> (r: bool)
    ensures
        r == ds@.contains(w),
{
    let mut i: usize = 0;
    while i < ds.len()
        invariant
            i <= ds@.len(),
            forall|j: int| 0 <= j < i ==> ds@[j] != w,
        decreases ds@.len() - i,
    {
        if ds[i] == w {
            proof {
                assert(ds@.contains(w));
            }
            return true;
        }
        i += 1;
    }
    proof {
        if ds@.contains(w) {
            let j = choose|j: int| 0 <= j < ds@.len() && ds@[j] == w;
            assert(ds@[j] != w);
        }
    }
    false
}

/// Restrict a day list to ISO weekdays, deduplicated and sorted ascending.
pub(crate) fn normalize_days(ds: &Vec<u8>) -> (r: Vec<u8>)
    ensures
        r@ == normalized_days(ds@),
        days_ok(r@),
{
    let mut r: Vec<u8> = Vec::new();
    let mut w: u8 = 1;
    while w <= 7
        invariant
            1 <= w <= 8,
            r@ == days_upto(ds@, w - 1),
            forall|k: int| 0 <= k < r@.len() ==> 1 <= #[trigger] r@[k] < w,
            forall|k: int, l: int| 0 <= k < l < r@.len() ==> r@[k] < r@[l],
        decreases 8 - w,
    {
        if contains_day(ds, w) {
            r.push(w);
        }
        w += 1;
    }
    r
}

/// A field-for-field copy of a recurrence set.
pub(crate) fn copy_days(v: &Vec<u8>) -> (r: Vec<u8>)
    ensures
        r@ == v@,
{
    let mut r: Vec<u8> = Vec::new();
    let mut i: usize = 0;
    while i < v.len()
        invariant
            i <= v@.len(),
            r@ == v@.subrange(0, i as int),
        decreases v@.len() - i,
    {
        r.push(v[i]);
        proof {
            assert(r@ =~= v@.subrange(0, i as int + 1));
        }
        i += 1;
    }
    proof {
        assert(r@ =~= v@);
    }
    r
}

/// A field-for-field copy of a subtask row.
pub(crate) fn copy_subtask(st: &Subtask) -> (r: Subtask)
    ensures
        r == *st,
{
    Subtask {
        id: st.id,
        task_id: st.task_id,
        title: st.title.clone(),
        completed: st.completed,
        priority: st.priority,
    }
}

/// Under `wf`, the task row at index `i` is the row `spec_task` names for its
/// id.
pub proof fn lemma_task_at(s: Store, i: int)
    requires
        s.wf(),
        0 <= i < s.tasks@.len(),
    ensures
        s.task_with_id(s.tasks@[i].id),
        s.task_index(s.tasks@[i].id) == i,
        s.spec_task(s.tasks@[i].id) == s.tasks@[i],
{
    let id = s.tasks@[i].id;
    assert(s.task_with_id(id));
    let j = s.task_index(id);
    assert(0 <= j < s.tasks@.len() && s.tasks@[j].id == id);
    if i < j {
        assert(s.tasks@[i].id != s.tasks@[j].id);
    } else if j < i {
        assert(s.tasks@[j].id != s.tasks@[i].id);
    }
}

/// Under `wf`, the subtask row at index `i` is the row `spec_sub` names for
/// its id.
pub proof fn lemma_sub_at(s: Store, i: int)
    requires
        s.wf(),
        0 <= i < s.subtasks@.len(),
    ensures
        s.has_sub_id(s.subtasks@[i].id),
        s.sub_index(s.subtasks@[i].id) == i,
        s.spec_sub(s.subtasks@[i].id) == s.subtasks@[i],
{
    let sid = s.subtasks@[i].id;
    assert(s.has_sub_id(sid));
    let j = s.sub_index(sid);
    assert(0 <= j < s.subtasks@.len() && s.subtasks@[j].id == sid);
    if i < j {
        assert(s.subtasks@[i].id != s.subtasks@[j].id);
    } else if j < i {
        assert(s.subtasks@[j].id != s.subtasks@[i].id);
    }
}

/// Under `wf`, the ledger row at index `i` is the row `spec_record` names for
/// its key.
pub proof fn lemma_rec_at(s: Store, i: int)
    requires
        s.wf(),
        0 <= i < s.completions@.len(),
    ensures
        s.has_record(s.completions@[i].task_id, s.completions@[i].date),
        s.rec_index(s.completions@[i].task_id, s.completions@[i].date) == i,
        s.spec_record(s.completions@[i].task_id, s.completions@[i].date) == s.completions@[i],
{
    let t = s.completions@[i].task_id;
    let d = s.completions@[i].date;
    assert(rec_match(s.completions@[i], t, d));
    assert(s.has_record(t, d));
    let j = s.rec_index(t, d);
    assert(0 <= j < s.completions@.len() && rec_match(s.completions@[j], t, d));
    if i < j {
        assert(!(s.completions@[i].task_id == s.completions@[j].task_id
            && s.completions@[i].date == s.completions@[j].date));
    } else if j < i {
        assert(!(s.completions@[j].task_id == s.completions@[i].task_id
            && s.completions@[j].date == s.completions@[i].date));
    }
}

/// Two stores with the same ledger rows read the same ledger, provided the
/// first is well-formed (so the row for a key is unique).
pub proof fn lemma_ledger_same(a: Store, b: Store)
    requires
        a.wf(),
        a.completions@ == b.completions@,
    ensures
        forall|t: u64, d: u64|
            #![trigger b.has_record(t, d)]
            #![trigger b.ledger_completed(t, d)]
            #![trigger b.ledger_rank(t, d)]
            a.has_record(t, d) == b.has_record(t, d) && a.ledger_completed(t, d)
                == b.ledger_completed(t, d) && a.ledger_rank(t, d) == b.ledger_rank(t, d),
{
    assert forall|t: u64, d: u64|
        a.has_record(t, d) == b.has_record(t, d) && a.ledger_completed(t, d)
            == b.ledger_completed(t, d) && a.ledger_rank(t, d) == b.ledger_rank(t, d) by {
        if a.has_record(t, d) {
            let i = a.rec_index(t, d);
            assert(rec_match(a.completions@[i], t, d));
            assert(rec_match(b.completions@[i], t, d));
            assert(b.has_record(t, d));
            let j = b.rec_index(t, d);
            assert(rec_match(b.completions@[j], t, d));
            assert(rec_match(a.completions@[j], t, d));
            lemma_rec_at(a, j);
            lemma_rec_at(a, i);
        }
        if b.has_record(t, d) {
            let j = b.rec_index(t, d);
            assert(rec_match(b.completions@[j], t, d));
            assert(rec_match(a.completions@[j], t, d));
            assert(a.has_record(t, d));
        }
    }
}

/// Two stores with the same subtask rows agree on subtask existence.
pub proof fn lemma_subs_same(a: Store, b: Store)
    requires
        a.subtasks@ == b.subtasks@,
    ensures
        forall|x: u64| #[trigger] a.has_subs(x) == b.has_subs(x),
        forall|x: u64| #[trigger] a.has_sub_id(x) == b.has_sub_id(x),
{
    assert forall|x: u64| #[trigger] a.has_subs(x) == b.has_subs(x) by {
        if a.has_subs(x) {
            let i = choose|i: int|
                0 <= i < a.subtasks@.len() && (#[trigger] a.subtasks@[i]).task_id == x;
            assert(b.subtasks@[i].task_id == x);
        }
        if b.has_subs(x) {
            let i = choose|i: int|
                0 <= i < b.subtasks@.len() && (#[trigger] b.subtasks@[i]).task_id == x;
            assert(a.subtasks@[i].task_id == x);
        }
    }
    assert forall|x: u64| #[trigger] a.has_sub_id(x) == b.has_sub_id(x) by {
        if a.has_sub_id(x) {
            let i = choose|i: int|
                0 <= i < a.subtasks@.len() && (#[trigger] a.subtasks@[i]).id == x;
            assert(b.subtasks@[i].id == x);
        }
        if b.has_sub_id(x) {
            let i = choose|i: int|
                0 <= i < b.subtasks@.len() && (#[trigger] b.subtasks@[i]).id == x;
            assert(a.subtasks@[i].id == x);
        }
    }
}

impl Store {
    /// Index of the task row with this id, if any.
    pub fn find_task_idx(&self, id: u64) -> (r: Option<usize>)
        ensures
            match r {
                Some(i) => i < self.tasks@.len() && self.tasks@[i as int].id == id,
                None => !self.task_with_id(id),
            },
    {
        let mut i: usize = 0;
        while i < self.tasks.len()
            invariant
                i <= self.tasks@.len(),
                forall|j: int| 0 <= j < i ==> (#[trigger] self.tasks@[j]).id != id,
            decreases self.tasks@.len() - i,
        {
            if self.tasks[i].id == id {
                return Some(i);
            }
            i += 1;
        }
        None
    }

    /// Index of the subtask row with this id, if any.
    pub fn find_sub_idx(&self, sid: u64) -> (r: Option<usize>)
        ensures
            match r {
                Some(i) => i < self.subtasks@.len() && self.subtasks@[i as int].id == sid,
                None => !self.has_sub_id(sid),
            },
    {
        let mut i: usize = 0;
        while i < self.subtasks.len()
            invariant
                i <= self.subtasks@.len(),
                forall|j: int| 0 <= j < i ==> (#[trigger] self.subtasks@[j]).id != sid,
            decreases self.subtasks@.len() - i,
        {
            if self.subtasks[i].id == sid {
                return Some(i);
            }
            i += 1;
        }
        None
    }

    /// The stored completion value for (`t`, `d`), defaulting to false.
    pub fn read_ledger_completed(&self, t: u64, d: u64) -> (r: bool)
        requires
            self.wf(),
        ensures
            r == self.ledger_completed(t, d),
    {
        match self.find_rec_idx(t, d) {
            Some(i) => {
                proof {
                    lemma_rec_at(*self, i as int);
                }
                self.completions[i].completed
            }
            None => false,
        }
    }

    /// Whether the task has at least one subtask row.
    pub fn has_subs_exec(&self, tid: u64) -> (r: bool)
        ensures
            r == self.has_subs(tid),
    {
        let mut i: usize = 0;
        while i < self.subtasks.len()
            invariant
                i <= self.subtasks@.len(),
                forall|j: int| 0 <= j < i ==> (#[trigger] self.subtasks@[j]).task_id != tid,
            decreases self.subtasks@.len() - i,
        {
            if self.subtasks[i].task_id == tid {
                return true;
            }
            i += 1;
        }
        false
    }

    /// Whether every subtask of the task is completed (true with none).
    pub fn all_subs_completed_exec(&self, tid: u64) -> (r: bool)
        ensures
            r == self.all_subs_completed(tid),
    {
        let mut i: usize = 0;
        while i < self.subtasks.len()
            invariant
                i <= self.subtasks@.len(),
                forall|j: int|
                    0 <= j < i && (#[trigger] self.subtasks@[j]).task_id == tid
                        ==> self.subtasks@[j].completed,
            decreases self.subtasks@.len() - i,
        {
            if self.subtasks[i].task_id == tid && !self.subtasks[i].completed {
                return false;
            }
            i += 1;
        }
        true
    }

    /// Index of the ledger row for (`t`, `d`), if any.
    pub fn find_rec_idx(&self, t: u64, d: u64) -> (r: Option<usize>)
        ensures
            match r {
                Some(i) => i < self.completions@.len() && rec_match(self.completions@[i as int], t, d),
                None => !self.has_record(t, d),
            },
    {
        let mut i: usize = 0;
        while i < self.completions.len()
            invariant
                i <= self.completions@.len(),
                forall|j: int| 0 <= j < i ==> !rec_match(#[trigger] self.completions@[j], t, d),
            decreases self.completions@.len() - i,
        {
            if self.completions[i].task_id == t && self.completions[i].date == d {
                return Some(i);
            }
            i += 1;
        }
        None
    }
}

} // verus!
